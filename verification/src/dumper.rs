//! The dumper: collects identifier/value pairs section by section and
//! generates the text of an INI document, sections and lines sorted by
//! name.

use vstd::prelude::*;

use crate::chars::{pop_char, push_char};
use crate::datas::{dump_value_spec, Identifier, Value};

verus! {

/// The views of a sequence of owned strings.
pub open spec fn views_of(s: Seq<String>) -> Seq<Seq<char>> {
    s.map_values(|t: String| t@)
}

/// The view of an optional owned string.
pub open spec fn opt_view(o: Option<String>) -> Option<Seq<char>> {
    match o {
        Some(s) => Some(s@),
        None => None,
    }
}

/// Lexicographic order on texts by Unicode scalar value, the order the
/// generated document lists sections and lines in.
pub open spec fn lex_le(a: Seq<char>, b: Seq<char>) -> bool
    decreases a.len(),
{
    if a.len() == 0 {
        true
    } else if b.len() == 0 {
        false
    } else if (a[0] as u32) < (b[0] as u32) {
        true
    } else if a[0] == b[0] {
        lex_le(a.drop_first(), b.drop_first())
    } else {
        false
    }
}

/// `x` placed before the first element of `s` it precedes.
pub open spec fn insert_sorted(x: Seq<char>, s: Seq<Seq<char>>) -> Seq<Seq<char>>
    decreases s.len(),
{
    if s.len() == 0 {
        seq![x]
    } else if lex_le(x, s[0]) {
        seq![x] + s
    } else {
        seq![s[0]] + insert_sorted(x, s.drop_first())
    }
}

/// Insertion sort under [`lex_le`].
pub open spec fn sort_lex(s: Seq<Seq<char>>) -> Seq<Seq<char>>
    decreases s.len(),
{
    if s.len() == 0 {
        Seq::<Seq<char>>::empty()
    } else {
        insert_sorted(s[0], sort_lex(s.drop_first()))
    }
}

/// Placing an element into a sorted list keeps exactly the old elements
/// plus the new one.
pub proof fn lemma_insert_sorted_multiset(x: Seq<char>, s: Seq<Seq<char>>)
    ensures
        insert_sorted(x, s).to_multiset() == s.to_multiset().insert(x),
    decreases s.len(),
{
    broadcast use vstd::seq_lib::group_to_multiset_ensures;
    broadcast use vstd::seq_lib::lemma_multiset_commutative;
    broadcast use vstd::multiset::group_multiset_axioms;

    if s.len() == 0 {
        assert(seq![x] =~= Seq::<Seq<char>>::empty().push(x));
        assert(insert_sorted(x, s).to_multiset() =~= s.to_multiset().insert(x));
    } else if lex_le(x, s[0]) {
        assert(seq![x] =~= Seq::<Seq<char>>::empty().push(x));
        assert((seq![x] + s).to_multiset() =~= s.to_multiset().insert(x));
    } else {
        lemma_insert_sorted_multiset(x, s.drop_first());
        assert(seq![s[0]] =~= Seq::<Seq<char>>::empty().push(s[0]));
        assert(s =~= seq![s[0]] + s.drop_first());
        assert((seq![s[0]] + insert_sorted(x, s.drop_first())).to_multiset()
            =~= s.to_multiset().insert(x));
    }
}

/// Sorting keeps exactly the elements.
pub proof fn lemma_sort_lex_multiset(s: Seq<Seq<char>>)
    ensures
        sort_lex(s).to_multiset() == s.to_multiset(),
    decreases s.len(),
{
    broadcast use vstd::seq_lib::group_to_multiset_ensures;
    broadcast use vstd::seq_lib::lemma_multiset_commutative;
    broadcast use vstd::multiset::group_multiset_axioms;

    if s.len() > 0 {
        lemma_sort_lex_multiset(s.drop_first());
        lemma_insert_sorted_multiset(s[0], sort_lex(s.drop_first()));
        assert(seq![s[0]] =~= Seq::<Seq<char>>::empty().push(s[0]));
        assert(s =~= seq![s[0]] + s.drop_first());
        assert(sort_lex(s).to_multiset() =~= s.to_multiset());
    }
}

/// An element stands in the sorted list exactly when it stands in the
/// list.
pub proof fn lemma_sort_lex_contains(s: Seq<Seq<char>>, x: Seq<char>)
    ensures
        sort_lex(s).contains(x) <==> s.contains(x),
{
    broadcast use vstd::seq_lib::group_to_multiset_ensures;

    lemma_sort_lex_multiset(s);
    assert(sort_lex(s).contains(x) <==> sort_lex(s).to_multiset().count(x) > 0);
    assert(s.contains(x) <==> s.to_multiset().count(x) > 0);
}

/// The state a dumper accumulates: for each section seen (or `None` for
/// the global scope), the lines dumped under it, in dump order.
pub type DumperView = Seq<(Option<Seq<char>>, Seq<Seq<char>>)>;

/// The first entry holding section `sec`, or the length of `d` when none
/// does.
pub open spec fn sec_index(d: DumperView, sec: Option<Seq<char>>) -> int
    decreases d.len(),
{
    if d.len() == 0 {
        0
    } else if d[0].0 == sec {
        0
    } else {
        1 + sec_index(d.drop_first(), sec)
    }
}

/// One line added under a section: appended to the section's entry, or
/// opening a new entry at the end when the section is new.
pub open spec fn dumper_add(d: DumperView, sec: Option<Seq<char>>, line: Seq<char>) -> DumperView {
    let j = sec_index(d, sec);
    if j == d.len() {
        d.push((sec, seq![line]))
    } else {
        d.update(j, (sec, d[j].1.push(line)))
    }
}

/// Lines joined for the document: each line followed by a line feed.
pub open spec fn join_lines(ls: Seq<Seq<char>>) -> Seq<char>
    decreases ls.len(),
{
    if ls.len() == 0 {
        Seq::<char>::empty()
    } else {
        ls[0] + seq!['\n'] + join_lines(ls.drop_first())
    }
}

/// The lines held under section `sec`, or none when the section never
/// appeared.
pub open spec fn lines_of(d: DumperView, sec: Option<Seq<char>>) -> Seq<Seq<char>> {
    if sec_index(d, sec) == d.len() {
        Seq::<Seq<char>>::empty()
    } else {
        d[sec_index(d, sec)].1
    }
}

/// The global entries' part of the document: their lines sorted, then a
/// blank line; empty when no global entry was dumped.
pub open spec fn globals_part(d: DumperView) -> Seq<char> {
    if sec_index(d, None) == d.len() {
        Seq::<char>::empty()
    } else {
        join_lines(sort_lex(lines_of(d, None))) + seq!['\n']
    }
}

/// The names of the sections held, in entry order.
pub open spec fn section_names(d: DumperView) -> Seq<Seq<char>>
    decreases d.len(),
{
    if d.len() == 0 {
        Seq::<Seq<char>>::empty()
    } else {
        (match d[0].0 {
            Some(name) => seq![name],
            None => Seq::<Seq<char>>::empty(),
        }) + section_names(d.drop_first())
    }
}

/// One section's part of the document: its header, its lines sorted, then
/// a blank line.
pub open spec fn section_block(d: DumperView, name: Seq<char>) -> Seq<char> {
    seq!['['] + name + seq![']'] + seq!['\n'] + join_lines(sort_lex(lines_of(d, Some(name))))
        + seq!['\n']
}

/// The named sections' parts of the document, in the order of `names`.
pub open spec fn sections_part(d: DumperView, names: Seq<Seq<char>>) -> Seq<char>
    decreases names.len(),
{
    if names.len() == 0 {
        Seq::<char>::empty()
    } else {
        section_block(d, names[0]) + sections_part(d, names.drop_first())
    }
}

/// The whole document: the global entries first, then each section sorted
/// by name; the blank line after the last block is dropped.
pub open spec fn generate_spec(d: DumperView) -> Seq<char> {
    let body = globals_part(d) + sections_part(d, sort_lex(section_names(d)));
    if body.len() == 0 {
        body
    } else {
        body.drop_last()
    }
}

/// Whether `a` precedes `b` in the document order.
pub(crate) fn str_le(a: &str, b: &str) -> (r: bool)
    ensures
        r == lex_le(a@, b@),
{
    let an = a.unicode_len();
    let bn = b.unicode_len();
    let mut i: usize = 0;
    let mut result: bool = true;
    proof {
        assert(a@.subrange(0, an as int) =~= a@);
        assert(b@.subrange(0, bn as int) =~= b@);
    }
    loop
        invariant_except_break
            0 <= i <= an,
            i <= bn,
            an == a@.len(),
            bn == b@.len(),
            lex_le(a@, b@) == lex_le(
                a@.subrange(i as int, an as int),
                b@.subrange(i as int, bn as int),
            ),
        ensures
            result == lex_le(a@, b@),
        decreases an - i,
    {
        let ghost av = a@.subrange(i as int, an as int);
        let ghost bv = b@.subrange(i as int, bn as int);
        if i == an {
            proof {
                assert(lex_le(av, bv));
            }
            result = true;
            break;
        }
        if i == bn {
            proof {
                assert(av.len() > 0 && bv.len() == 0);
                assert(!lex_le(av, bv));
            }
            result = false;
            break;
        }
        let ca = a.get_char(i);
        let cb = b.get_char(i);
        proof {
            assert(av[0] == ca && bv[0] == cb);
            assert(av.drop_first() =~= a@.subrange(i + 1, an as int));
            assert(bv.drop_first() =~= b@.subrange(i + 1, bn as int));
        }
        if (ca as u32) < (cb as u32) {
            proof {
                assert(lex_le(av, bv));
            }
            result = true;
            break;
        }
        if ca != cb {
            proof {
                assert(!lex_le(av, bv));
            }
            result = false;
            break;
        }
        i += 1;
    }
    result
}

/// `x` placed into the sorted list `v` before the first element it
/// precedes.
pub(crate) fn insert_sorted_vec(x: String, v: Vec<String>) -> (r: Vec<String>)
    ensures
        views_of(r@) == insert_sorted(x@, views_of(v@)),
    decreases v@.len(),
{
    let mut v = v;
    let ghost vin = v@;
    if v.len() == 0 {
        v.push(x);
        proof {
            assert(views_of(vin) =~= Seq::<Seq<char>>::empty());
            assert(views_of(v@) =~= insert_sorted(x@, views_of(vin)));
        }
        v
    } else if str_le(x.as_str(), v[0].as_str()) {
        proof {
            assert(views_of(vin)[0] == vin[0]@);
            assert(lex_le(x@, views_of(vin)[0]));
        }
        v.insert(0, x);
        proof {
            assert(views_of(v@) =~= seq![x@] + views_of(vin));
        }
        v
    } else {
        proof {
            assert(views_of(vin)[0] == vin[0]@);
            assert(!lex_le(x@, views_of(vin)[0]));
        }
        let first = v.remove(0);
        proof {
            assert(v@ =~= vin.drop_first());
            assert(views_of(v@) =~= views_of(vin).drop_first());
        }
        let mut r = insert_sorted_vec(x, v);
        let ghost rv = r@;
        r.insert(0, first);
        proof {
            assert(views_of(r@) =~= seq![views_of(vin)[0]] + views_of(rv));
            assert(views_of(r@) =~= insert_sorted(x@, views_of(vin)));
        }
        r
    }
}

/// The list sorted under [`lex_le`] by insertion.
pub(crate) fn sort_vec(v: Vec<String>) -> (r: Vec<String>)
    ensures
        views_of(r@) == sort_lex(views_of(v@)),
    decreases v@.len(),
{
    let mut v = v;
    let ghost vin = v@;
    if v.len() == 0 {
        proof {
            assert(views_of(v@) =~= Seq::<Seq<char>>::empty());
            assert(sort_lex(views_of(v@)) =~= Seq::<Seq<char>>::empty());
        }
        v
    } else {
        proof {
            assert(views_of(vin)[0] == vin[0]@);
        }
        let first = v.remove(0);
        proof {
            assert(v@ =~= vin.drop_first());
            assert(views_of(v@) =~= views_of(vin).drop_first());
        }
        let rest = sort_vec(v);
        insert_sorted_vec(first, rest)
    }
}

/// A copy of a list of owned strings.
pub(crate) fn clone_lines(v: &Vec<String>) -> (r: Vec<String>)
    ensures
        views_of(r@) == views_of(v@),
{
    let mut r: Vec<String> = Vec::new();
    let n = v.len();
    let mut i: usize = 0;
    while i < n
        invariant
            0 <= i <= n,
            n == v@.len(),
            r@.len() == i,
            forall|k: int| 0 <= k < i ==> #[trigger] r@[k]@ == v@[k]@,
        decreases n - i,
    {
        r.push(v[i].clone());
        i += 1;
    }
    proof {
        assert(views_of(r@) =~= views_of(v@));
    }
    r
}

/// The view of an optional string slice.
pub open spec fn osec_view(o: Option<&str>) -> Option<Seq<char>> {
    match o {
        Some(s) => Some(s@),
        None => None,
    }
}

/// The first entry of `tree` filed under `sec`, if any.
pub(crate) fn find_entry(tree: &Vec<(Option<String>, Vec<String>)>, sec: Option<&str>) -> (r: Option<usize>)
    ensures
        match r {
            Some(fi) => fi < tree@.len() && opt_view(tree@[fi as int].0) == osec_view(sec)
                && forall|k: int| 0 <= k < fi ==> opt_view(#[trigger] tree@[k].0) != osec_view(sec),
            None => forall|k: int|
                0 <= k < tree@.len() ==> opt_view(#[trigger] tree@[k].0) != osec_view(sec),
        },
{
    let n = tree.len();
    let mut i: usize = 0;
    while i < n
        invariant
            0 <= i <= n,
            n == tree@.len(),
            forall|k: int| 0 <= k < i ==> opt_view(#[trigger] tree@[k].0) != osec_view(sec),
        decreases n - i,
    {
        let matches_here = match (&tree[i].0, sec) {
            (Some(a), Some(b)) => crate::chars::str_eq(a.as_str(), b),
            (None, None) => true,
            _ => false,
        };
        if matches_here {
            return Some(i);
        }
        i += 1;
    }
    None
}

/// A stated object which, from identifier/value pairs, builds the content
/// of an INI document: each pair becomes a `name=value` line filed under
/// its section, and [`Dumper::generate`] writes the document out.
#[derive(Debug)]
pub struct Dumper {
    tree: Vec<(Option<String>, Vec<String>)>,
}

/// The view of a section-to-strings grouping held in executable form.
pub open spec fn groups_view(t: Seq<(Option<String>, Vec<String>)>) -> DumperView {
    t.map_values(|e: (Option<String>, Vec<String>)| (opt_view(e.0), views_of(e.1@)))
}

impl View for Dumper {
    type V = DumperView;

    closed spec fn view(&self) -> DumperView {
        groups_view(self.tree@)
    }
}

impl Dumper {
    /// Creates a dumper holding nothing.
    pub fn new() -> (r: Dumper)
        ensures
            r@ == Seq::<(Option<Seq<char>>, Seq<Seq<char>>)>::empty(),
    {
        let d = Dumper { tree: Vec::new() };
        proof {
            assert(d@ =~= Seq::<(Option<Seq<char>>, Seq<Seq<char>>)>::empty());
        }
        d
    }

    /// Files the line `name=value` under the pair's section: appended to
    /// the section's lines, or opening the section when it is new.
    pub fn dump(&mut self, identifier: Identifier, value: Value)
        ensures
            final(self)@ == dumper_add(
                old(self)@,
                sec_of(identifier@),
                identifier@.name + seq!['='] + dump_value_spec(value@),
            ),
    {
        let sec_ref = identifier.section();
        proof {
            assert(osec_view(sec_ref) == sec_of(identifier@));
        }
        self.add_line(sec_ref, identifier.name(), &value);
    }

    /// The work of [`Dumper::dump`], from borrowed parts: files the line
    /// `name=value` under `sec_ref`.
    fn add_line(&mut self, sec_ref: Option<&str>, name: &str, value: &Value)
        ensures
            final(self)@ == dumper_add(
                old(self)@,
                osec_view(sec_ref),
                name@ + seq!['='] + dump_value_spec(value@),
            ),
    {
        let mut line = String::new();
        line.append(name);
        push_char(&mut line, '=');
        let dumped = value.dump();
        line.append(dumped.as_str());
        proof {
            assert(line@ =~= name@ + seq!['='] + dump_value_spec(value@));
        }
        let ghost d0 = self@;
        let ghost t0 = self.tree@;
        proof {
            assert forall|k: int| 0 <= k < t0.len() implies #[trigger] d0[k] == (
                opt_view(t0[k].0),
                views_of(t0[k].1@),
            ) by {
            }
        }
        match find_entry(&self.tree, sec_ref) {
            Some(i) => {
                proof {
                    assert forall|k: int| 0 <= k < i implies #[trigger] d0[k].0 != osec_view(
                        sec_ref,
                    ) by {
                    }
                    lemma_sec_index_at(d0, osec_view(sec_ref), i as int);
                }
                let entry = self.tree.remove(i);
                let (sec, mut lines) = entry;
                let ghost lines0 = lines@;
                lines.push(line);
                self.tree.insert(i, (sec, lines));
                proof {
                    assert(self.tree@ =~= t0.update(i as int, (t0[i as int].0, lines)));
                    let target = d0.update(
                        i as int,
                        (d0[i as int].0, d0[i as int].1.push(line@)),
                    );
                    assert forall|k: int| 0 <= k < self@.len() implies #[trigger] self@[k]
                        == target[k] by {
                        assert(self@[k] == (
                            opt_view(self.tree@[k].0),
                            views_of(self.tree@[k].1@),
                        ));
                        if k == i {
                            assert(views_of(lines@) =~= views_of(lines0).push(line@));
                            assert(views_of(lines0) == d0[i as int].1);
                        } else {
                            assert(self.tree@[k] == t0[k]);
                        }
                    }
                    assert(self@ =~= target);
                }
            },
            None => {
                proof {
                    assert forall|k: int| 0 <= k < d0.len() implies #[trigger] d0[k].0 != osec_view(
                        sec_ref,
                    ) by {
                    }
                    lemma_sec_index_at(d0, osec_view(sec_ref), d0.len() as int);
                }
                let sec: Option<String> = match sec_ref {
                    Some(s) => Some(s.to_owned()),
                    None => None,
                };
                let mut lines: Vec<String> = Vec::new();
                lines.push(line);
                self.tree.push((sec, lines));
                proof {
                    assert(views_of(lines@) =~= seq![line@]);
                    let target = d0.push((osec_view(sec_ref), seq![line@]));
                    assert forall|k: int| 0 <= k < self@.len() implies #[trigger] self@[k]
                        == target[k] by {
                        assert(self@[k] == (
                            opt_view(self.tree@[k].0),
                            views_of(self.tree@[k].1@),
                        ));
                        if k < t0.len() {
                            assert(self.tree@[k] == t0[k]);
                        }
                    }
                    assert(self@ =~= target);
                }
            },
        }
    }

    /// Generates the document held: the global lines first, sorted, then
    /// each section sorted by name with its lines sorted, blocks parted by
    /// blank lines.
    #[verifier::rlimit(100)]
    #[verifier::spinoff_prover]
    pub fn generate(self) -> (r: String)
        ensures
            r@ == generate_spec(self@),
    {
        let ghost d = self@;
        let n = self.tree.len();
        proof {
            assert forall|k: int| 0 <= k < n implies #[trigger] d[k] == (
                opt_view(self.tree@[k].0),
                views_of(self.tree@[k].1@),
            ) by {
            }
        }
        let mut out = String::new();
        match find_entry(&self.tree, None) {
            Some(gi) => {
                proof {
                    assert forall|k: int| 0 <= k < gi implies #[trigger] d[k].0
                        != None::<Seq<char>> by {
                    }
                    lemma_sec_index_at(d, None::<Seq<char>>, gi as int);
                    assert(lines_of(d, None::<Seq<char>>) == d[gi as int].1);
                    assert(d[gi as int].1 == views_of(self.tree@[gi as int].1@));
                }
                let sorted = sort_vec(clone_lines(&self.tree[gi].1));
                let ghost sv = views_of(sorted@);
                proof {
                    assert(sv == sort_lex(lines_of(d, None::<Seq<char>>)));
                    assert(sv.subrange(0, sv.len() as int) =~= sv);
                    assert(out@ + join_lines(sv) =~= join_lines(sv));
                }
                let m = sorted.len();
                let mut k: usize = 0;
                while k < m
                    invariant
                        0 <= k <= m,
                        m == sorted@.len(),
                        sv == views_of(sorted@),
                        out@ + join_lines(sv.subrange(k as int, m as int)) == join_lines(sv),
                    decreases m - k,
                {
                    let ghost out0 = out@;
                    let ghost rem = sv.subrange(k as int, m as int);
                    proof {
                        assert(rem[0] == sv[k as int]);
                        assert(sv[k as int] == sorted@[k as int]@);
                        assert(rem.drop_first() =~= sv.subrange(k + 1, m as int));
                    }
                    out.append(sorted[k].as_str());
                    push_char(&mut out, '\n');
                    proof {
                        assert(out@ =~= out0 + rem[0] + seq!['\n']);
                        assert(join_lines(rem) == rem[0] + seq!['\n'] + join_lines(
                            rem.drop_first(),
                        ));
                        assert(out@ + join_lines(rem.drop_first()) =~= out0 + join_lines(rem));
                    }
                    k += 1;
                }
                push_char(&mut out, '\n');
                proof {
                    assert(sv.subrange(m as int, m as int) =~= Seq::<Seq<char>>::empty());
                    assert(out@ =~= globals_part(d));
                }
            },
            None => {
                proof {
                    assert forall|k: int| 0 <= k < d.len() implies #[trigger] d[k].0
                        != None::<Seq<char>> by {
                    }
                    lemma_sec_index_at(d, None::<Seq<char>>, d.len() as int);
                    assert(out@ =~= globals_part(d));
                }
            },
        }
        let ghost after_globals = out@;
        let mut names: Vec<String> = Vec::new();
        let mut i: usize = 0;
        proof {
            assert(d.subrange(0, 0) =~= Seq::<(Option<Seq<char>>, Seq<Seq<char>>)>::empty());
            assert(views_of(names@) =~= section_names(d.subrange(0, 0)));
        }
        while i < n
            invariant
                0 <= i <= n,
                n == self.tree@.len(),
                d == self@,
                views_of(names@) == section_names(d.subrange(0, i as int)),
            decreases n - i,
        {
            proof {
                assert(d[i as int] == (
                    opt_view(self.tree@[i as int].0),
                    views_of(self.tree@[i as int].1@),
                ));
            }
            let ghost pre = d.subrange(0, i as int);
            let ghost pre1 = d.subrange(0, i + 1);
            proof {
                lemma_section_names_snoc(pre, d[i as int]);
                assert(pre1 =~= pre.push(d[i as int]));
            }
            match &self.tree[i].0 {
                Some(s) => {
                    names.push(s.clone());
                    proof {
                        assert(views_of(names@) =~= section_names(pre1));
                    }
                },
                None => {
                    proof {
                        assert(views_of(names@) =~= section_names(pre1));
                    }
                },
            }
            i += 1;
        }
        proof {
            assert(d.subrange(0, n as int) =~= d);
        }
        let sorted_names = sort_vec(names);
        let ghost ns = views_of(sorted_names@);
        proof {
            assert(ns == sort_lex(section_names(d)));
            assert(ns.subrange(0, ns.len() as int) =~= ns);
            assert(after_globals + sections_part(d, ns.subrange(0, ns.len() as int))
                == globals_part(d) + sections_part(d, ns));
        }
        let m = sorted_names.len();
        let mut k: usize = 0;
        while k < m
            invariant
                0 <= k <= m,
                m == sorted_names@.len(),
                ns == views_of(sorted_names@),
                ns == sort_lex(section_names(d)),
                out@ + sections_part(d, ns.subrange(k as int, m as int)) == globals_part(d)
                    + sections_part(d, ns),
                n == self.tree@.len(),
                d == self@,
            decreases m - k,
        {
            let ghost rem = ns.subrange(k as int, m as int);
            let ghost out0 = out@;
            proof {
                assert(rem[0] == ns[k as int]);
                assert(ns[k as int] == sorted_names@[k as int]@);
                assert(rem.drop_first() =~= ns.subrange(k + 1, m as int));
                assert forall|q: int| 0 <= q < n implies #[trigger] d[q] == (
                    opt_view(self.tree@[q].0),
                    views_of(self.tree@[q].1@),
                ) by {
                }
            }
            let name = &sorted_names[k];
            push_char(&mut out, '[');
            out.append(name.as_str());
            push_char(&mut out, ']');
            push_char(&mut out, '\n');
            let block_lines: Vec<String> = match find_entry(&self.tree, Some(name.as_str())) {
                Some(fi) => {
                    proof {
                        assert forall|q: int| 0 <= q < fi implies #[trigger] d[q].0 != Some(
                            ns[k as int],
                        ) by {
                        }
                        lemma_sec_index_at(d, Some(ns[k as int]), fi as int);
                        assert(lines_of(d, Some(ns[k as int])) == d[fi as int].1);
                        assert(d[fi as int].1 == views_of(self.tree@[fi as int].1@));
                    }
                    clone_lines(&self.tree[fi].1)
                },
                None => {
                    proof {
                        assert forall|q: int| 0 <= q < d.len() implies #[trigger] d[q].0 != Some(
                            ns[k as int],
                        ) by {
                        }
                        lemma_sec_index_at(d, Some(ns[k as int]), d.len() as int);
                    }
                    Vec::new()
                },
            };
            proof {
                assert(views_of(block_lines@) =~= lines_of(d, Some(ns[k as int])));
            }
            let sorted_lines = sort_vec(block_lines);
            let ghost lv = views_of(sorted_lines@);
            let ghost before_lines = out@;
            proof {
                assert(lv == sort_lex(lines_of(d, Some(ns[k as int]))));
                assert(lv.subrange(0, lv.len() as int) =~= lv);
                assert(before_lines + join_lines(lv.subrange(0, lv.len() as int)) =~= before_lines
                    + join_lines(lv));
            }
            let lm = sorted_lines.len();
            let mut lk: usize = 0;
            while lk < lm
                invariant
                    0 <= lk <= lm,
                    lm == sorted_lines@.len(),
                    lv == views_of(sorted_lines@),
                    out@ + join_lines(lv.subrange(lk as int, lm as int)) == before_lines
                        + join_lines(lv),
                decreases lm - lk,
            {
                let ghost lout0 = out@;
                let ghost lrem = lv.subrange(lk as int, lm as int);
                proof {
                    assert(lrem[0] == lv[lk as int]);
                    assert(lv[lk as int] == sorted_lines@[lk as int]@);
                    assert(lrem.drop_first() =~= lv.subrange(lk + 1, lm as int));
                }
                out.append(sorted_lines[lk].as_str());
                push_char(&mut out, '\n');
                proof {
                    assert(out@ =~= lout0 + lrem[0] + seq!['\n']);
                    assert(join_lines(lrem) == lrem[0] + seq!['\n'] + join_lines(
                        lrem.drop_first(),
                    ));
                    assert(out@ + join_lines(lrem.drop_first()) =~= lout0 + join_lines(lrem));
                }
                lk += 1;
            }
            push_char(&mut out, '\n');
            proof {
                assert(lv.subrange(lm as int, lm as int) =~= Seq::<Seq<char>>::empty());
                assert(out@ =~= out0 + section_block(d, ns[k as int]));
                assert(sections_part(d, rem) == section_block(d, rem[0]) + sections_part(
                    d,
                    rem.drop_first(),
                ));
                assert(out@ + sections_part(d, rem.drop_first()) =~= out0 + sections_part(d, rem));
            }
            k += 1;
        }
        proof {
            assert(ns.subrange(m as int, m as int) =~= Seq::<Seq<char>>::empty());
            assert(out@ == globals_part(d) + sections_part(d, ns));
        }
        let _popped = pop_char(&mut out);
        proof {
            let body = globals_part(d) + sections_part(d, sort_lex(section_names(d)));
            if body.len() == 0 {
                assert(out@ =~= generate_spec(d));
            } else {
                assert(out@ =~= generate_spec(d));
            }
        }
        out
    }
}

/// The section of an identifier, as the dumper files it.
pub open spec fn sec_of(i: crate::datas::IdentifierView) -> Option<Seq<char>> {
    i.section
}

/// The dumper state reached by filing a table's entries in order: each
/// entry becomes the line `name=value` under its section.
pub open spec fn dump_fold(s: Seq<(Identifier, Value)>) -> DumperView
    decreases s.len(),
{
    if s.len() == 0 {
        Seq::<(Option<Seq<char>>, Seq<Seq<char>>)>::empty()
    } else {
        dumper_add(
            dump_fold(s.drop_last()),
            s.last().0@.section,
            s.last().0@.name + seq!['='] + dump_value_spec(s.last().1@),
        )
    }
}

/// The line one entry is filed as: its name, `=`, and its dumped value.
pub open spec fn line_of(e: (Identifier, Value)) -> Seq<char> {
    e.0@.name + seq!['='] + dump_value_spec(e.1@)
}

/// The lines the entries `s` put under section `sec`, in entry order.
pub open spec fn lines_for(s: Seq<(Identifier, Value)>, sec: Option<Seq<char>>) -> Seq<Seq<char>>
    decreases s.len(),
{
    if s.len() == 0 {
        Seq::<Seq<char>>::empty()
    } else {
        lines_for(s.drop_last(), sec) + (if s.last().0@.section == sec {
            seq![line_of(s.last())]
        } else {
            Seq::<Seq<char>>::empty()
        })
    }
}

/// Appending an entry moves the first index of a section back only when
/// that section was absent and the entry opens it.
proof fn lemma_sec_index_push(d: DumperView, e: (Option<Seq<char>>, Seq<Seq<char>>), sec: Option<
    Seq<char>,
>)
    ensures
        sec_index(d.push(e), sec) == if sec_index(d, sec) < d.len() {
            sec_index(d, sec)
        } else if e.0 == sec {
            d.len() as int
        } else {
            d.len() + 1int
        },
    decreases d.len(),
{
    let goal = if sec_index(d, sec) < d.len() {
        sec_index(d, sec)
    } else if e.0 == sec {
        d.len() as int
    } else {
        d.len() + 1int
    };
    if d.len() == 0 {
        assert(d.push(e)[0] == e);
        if e.0 != sec {
            assert(d.push(e).drop_first() =~= Seq::<(Option<Seq<char>>, Seq<Seq<char>>)>::empty());
            assert(sec_index(Seq::<(Option<Seq<char>>, Seq<Seq<char>>)>::empty(), sec) == 0);
        }
        assert(sec_index(d.push(e), sec) == goal);
    } else {
        assert(d.push(e)[0] == d[0]);
        assert(d.push(e).drop_first() =~= d.drop_first().push(e));
        lemma_sec_index_push(d.drop_first(), e, sec);
        lemma_sec_index_range(d.drop_first(), sec);
        if d[0].0 == sec {
            assert(sec_index(d, sec) == 0);
            assert(sec_index(d.push(e), sec) == 0);
        } else {
            assert(sec_index(d, sec) == 1 + sec_index(d.drop_first(), sec));
            assert(sec_index(d.push(e), sec) == 1 + sec_index(d.drop_first().push(e), sec));
        }
        assert(sec_index(d.push(e), sec) == goal);
    }
}

/// Replacing an entry's lines while keeping its section leaves every
/// first index unchanged.
proof fn lemma_sec_index_update(d: DumperView, j: int, e: (Option<Seq<char>>, Seq<Seq<char>>), sec:
    Option<Seq<char>>)
    requires
        0 <= j < d.len(),
        e.0 == d[j].0,
    ensures
        sec_index(d.update(j, e), sec) == sec_index(d, sec),
    decreases d.len(),
{
    let t = d.update(j, e);
    if j == 0 {
        assert(t[0].0 == d[0].0);
        if d[0].0 != sec {
            assert(t.drop_first() =~= d.drop_first());
        }
    } else {
        assert(t[0] == d[0]);
        if d[0].0 != sec {
            assert(t.drop_first() =~= d.drop_first().update(j - 1, e));
            lemma_sec_index_update(d.drop_first(), j - 1, e, sec);
        }
    }
}

/// The first index of a section is never negative and never past the end.
pub(crate) proof fn lemma_sec_index_range(d: DumperView, sec: Option<Seq<char>>)
    ensures
        0 <= sec_index(d, sec) <= d.len(),
        sec_index(d, sec) < d.len() ==> d[sec_index(d, sec)].0 == sec,
    decreases d.len(),
{
    if d.len() > 0 && d[0].0 != sec {
        lemma_sec_index_range(d.drop_first(), sec);
    }
}

/// Filing one line changes one section's lines and no other's.
proof fn lemma_dumper_add_lines(d: DumperView, a: Option<Seq<char>>, l: Seq<char>, sec: Option<
    Seq<char>,
>)
    ensures
        lines_of(dumper_add(d, a, l), sec) == if a == sec {
            lines_of(d, sec).push(l)
        } else {
            lines_of(d, sec)
        },
{
    lemma_sec_index_range(d, a);
    lemma_sec_index_range(d, sec);
    let j = sec_index(d, a);
    if j == d.len() {
        let e = (a, seq![l]);
        lemma_sec_index_push(d, e, sec);
        lemma_sec_index_range(d.push(e), sec);
        if a == sec {
            assert(lines_of(d, sec) =~= Seq::<Seq<char>>::empty());
            assert(lines_of(d.push(e), sec) =~= lines_of(d, sec).push(l));
        }
    } else {
        let e = (a, d[j].1.push(l));
        lemma_sec_index_update(d, j, e, sec);
        lemma_sec_index_range(d.update(j, e), sec);
        if a == sec {
            assert(d.update(j, e)[j] == e);
        }
    }
}

/// Filing one line keeps every held section name and adds the line's
/// section when it is new.
proof fn lemma_dumper_add_names(d: DumperView, a: Option<Seq<char>>, l: Seq<char>)
    ensures
        forall|nm: Seq<char>|
            #[trigger] section_names(dumper_add(d, a, l)).contains(nm) <==> (
            section_names(d).contains(nm) || a == Some(nm)),
{
    lemma_sec_index_range(d, a);
    let j = sec_index(d, a);
    if j == d.len() {
        let e = (a, seq![l]);
        lemma_section_names_snoc(d, e);
        assert forall|nm: Seq<char>| #[trigger] section_names(dumper_add(d, a, l)).contains(nm)
            <==> (section_names(d).contains(nm) || a == Some(nm)) by {
            let names = section_names(d);
            let tail = (match a {
                Some(name) => seq![name],
                None => Seq::<Seq<char>>::empty(),
            });
            assert(section_names(d.push(e)) == names + tail);
            if section_names(d.push(e)).contains(nm) {
                let q = choose|q: int|
                    0 <= q < (names + tail).len() && (names + tail)[q] == nm;
                if q < names.len() {
                    assert(names[q] == nm);
                } else {
                    assert(tail[q - names.len()] == nm);
                }
            }
            if names.contains(nm) {
                let q = choose|q: int| 0 <= q < names.len() && names[q] == nm;
                assert((names + tail)[q] == nm);
            }
            if a == Some(nm) {
                assert((names + tail)[names.len() as int] == nm);
            }
        }
    } else {
        let e = (a, d[j].1.push(l));
        lemma_section_names_update(d, j, e);
        assert(d[j].0 == a);
        assert forall|nm: Seq<char>| #[trigger] section_names(dumper_add(d, a, l)).contains(nm)
            <==> (section_names(d).contains(nm) || a == Some(nm)) by {
            if a == Some(nm) {
                lemma_section_names_member(d, j);
            }
        }
    }
}

/// Replacing an entry's lines while keeping its section leaves the name
/// list unchanged.
proof fn lemma_section_names_update(d: DumperView, j: int, e: (Option<Seq<char>>, Seq<Seq<char>>))
    requires
        0 <= j < d.len(),
        e.0 == d[j].0,
    ensures
        section_names(d.update(j, e)) == section_names(d),
    decreases d.len(),
{
    let t = d.update(j, e);
    if j == 0 {
        assert(t[0].0 == d[0].0);
        assert(t.drop_first() =~= d.drop_first());
    } else {
        assert(t[0] == d[0]);
        assert(t.drop_first() =~= d.drop_first().update(j - 1, e));
        lemma_section_names_update(d.drop_first(), j - 1, e);
    }
}

/// An entry's section name, if any, stands in the name list.
proof fn lemma_section_names_member(d: DumperView, j: int)
    requires
        0 <= j < d.len(),
        d[j].0 is Some,
    ensures
        section_names(d).contains(d[j].0->Some_0),
    decreases d.len(),
{
    if j == 0 {
        assert(section_names(d)[0] == d[0].0->Some_0);
    } else {
        lemma_section_names_member(d.drop_first(), j - 1);
        assert(d.drop_first()[j - 1] == d[j]);
        let names = section_names(d.drop_first());
        let q = choose|q: int| 0 <= q < names.len() && names[q] == d[j].0->Some_0;
        let head = (match d[0].0 {
            Some(name) => seq![name],
            None => Seq::<Seq<char>>::empty(),
        });
        assert(section_names(d) == head + names);
        assert((head + names)[head.len() + q] == d[j].0->Some_0);
    }
}

/// The dumper built from a table's entries holds, under each section,
/// exactly the lines of that section's entries, in entry order.
pub proof fn lemma_dump_fold_lines(s: Seq<(Identifier, Value)>, sec: Option<Seq<char>>)
    ensures
        lines_of(dump_fold(s), sec) == lines_for(s, sec),
    decreases s.len(),
{
    if s.len() == 0 {
        lemma_sec_index_range(dump_fold(s), sec);
    } else {
        lemma_dump_fold_lines(s.drop_last(), sec);
        lemma_dumper_add_lines(dump_fold(s.drop_last()), s.last().0@.section, line_of(s.last()), sec);
        if s.last().0@.section == sec {
            assert(lines_for(s, sec) =~= lines_for(s.drop_last(), sec).push(line_of(s.last())));
        } else {
            assert(lines_for(s, sec) =~= lines_for(s.drop_last(), sec));
        }
    }
}

/// The dumper built from a table's entries holds a section name exactly
/// when some entry carries that section.
pub proof fn lemma_dump_fold_names(s: Seq<(Identifier, Value)>, nm: Seq<char>)
    ensures
        section_names(dump_fold(s)).contains(nm) <==> exists|j: int|
            0 <= j < s.len() && (#[trigger] s[j]).0@.section == Some(nm),
    decreases s.len(),
{
    if s.len() == 0 {
    } else {
        lemma_dump_fold_names(s.drop_last(), nm);
        lemma_dumper_add_names(dump_fold(s.drop_last()), s.last().0@.section, line_of(s.last()));
        if section_names(dump_fold(s)).contains(nm) {
            if section_names(dump_fold(s.drop_last())).contains(nm) {
                let j = choose|j: int|
                    0 <= j < s.drop_last().len() && (#[trigger] s.drop_last()[j]).0@.section
                        == Some(nm);
                assert(s[j].0@.section == Some(nm));
            } else {
                assert(s[s.len() - 1].0@.section == Some(nm));
            }
        }
        if exists|j: int| 0 <= j < s.len() && (#[trigger] s[j]).0@.section == Some(nm) {
            let j = choose|j: int| 0 <= j < s.len() && (#[trigger] s[j]).0@.section == Some(nm);
            if j < s.len() - 1 {
                assert(s.drop_last()[j] == s[j]);
            }
        }
    }
}

/// A line stands among a section's lines exactly when some entry of that
/// section is filed as it.
pub proof fn lemma_lines_for_membership(
    s: Seq<(Identifier, Value)>,
    sec: Option<Seq<char>>,
    x: Seq<char>,
)
    ensures
        lines_for(s, sec).contains(x) <==> exists|j: int|
            0 <= j < s.len() && (#[trigger] s[j]).0@.section == sec && line_of(s[j]) == x,
    decreases s.len(),
{
    if s.len() > 0 {
        lemma_lines_for_membership(s.drop_last(), sec, x);
        let pre = lines_for(s.drop_last(), sec);
        let tail = (if s.last().0@.section == sec {
            seq![line_of(s.last())]
        } else {
            Seq::<Seq<char>>::empty()
        });
        assert(lines_for(s, sec) == pre + tail);
        if lines_for(s, sec).contains(x) {
            let q = choose|q: int| 0 <= q < (pre + tail).len() && (pre + tail)[q] == x;
            if q < pre.len() {
                assert(pre[q] == x);
                let j = choose|j: int|
                    0 <= j < s.drop_last().len() && (#[trigger] s.drop_last()[j]).0@.section == sec
                        && line_of(s.drop_last()[j]) == x;
                assert((s[j]).0@.section == sec && line_of(s[j]) == x);
            } else {
                assert(tail[q - pre.len()] == x);
                assert((s[s.len() - 1]).0@.section == sec && line_of(s[s.len() - 1]) == x);
            }
        }
        if exists|j: int|
            0 <= j < s.len() && (#[trigger] s[j]).0@.section == sec && line_of(s[j]) == x {
            let j = choose|j: int|
                0 <= j < s.len() && (#[trigger] s[j]).0@.section == sec && line_of(s[j]) == x;
            if j < s.len() - 1 {
                assert(s.drop_last()[j] == s[j]);
                let q = choose|q: int| 0 <= q < pre.len() && pre[q] == x;
                assert((pre + tail)[q] == x);
            } else {
                assert((pre + tail)[pre.len() as int] == x);
            }
        }
    }
}

/// Writes a whole table out as an INI document: every entry is filed as a
/// `name=value` line under its section, and the document lists the global
/// entries first and then each section sorted by name, lines sorted.
pub fn dump_table(data: &crate::datas::Table) -> (r: String)
    ensures
        r@ == generate_spec(dump_fold(data.seq_view())),
{
    let entries = data.entries();
    let n = entries.len();
    let mut dumper = Dumper::new();
    let mut i: usize = 0;
    proof {
        assert(dumper@ =~= dump_fold(entries@.subrange(0, 0)));
    }
    while i < n
        invariant
            0 <= i <= n,
            n == entries@.len(),
            entries@ == data.seq_view(),
            dumper@ == dump_fold(entries@.subrange(0, i as int)),
        decreases n - i,
    {
        let ghost pre = entries@.subrange(0, i as int);
        let ghost pre1 = entries@.subrange(0, i + 1);
        proof {
            assert(pre1 =~= pre.push(entries@[i as int]));
            assert(pre1.drop_last() =~= pre);
        }
        let ident = &entries[i].0;
        let sec_ref = ident.section();
        proof {
            assert(osec_view(sec_ref) == ident@.section);
        }
        dumper.add_line(sec_ref, ident.name(), &entries[i].1);
        i += 1;
    }
    proof {
        assert(entries@.subrange(0, n as int) =~= entries@);
    }
    dumper.generate()
}

/// When the entries before `i` all miss `sec` and entry `i` holds it (or
/// `i` is the length), the first index holding `sec` is `i`.
pub(crate) proof fn lemma_sec_index_at(d: DumperView, sec: Option<Seq<char>>, i: int)
    requires
        0 <= i <= d.len(),
        forall|k: int| 0 <= k < i ==> #[trigger] d[k].0 != sec,
        i < d.len() ==> d[i].0 == sec,
    ensures
        sec_index(d, sec) == if i < d.len() {
            i
        } else {
            d.len() as int
        },
    decreases i,
{
    if i == 0 {
        if d.len() > 0 && d[0].0 != sec {
            lemma_sec_index_none(d.drop_first(), sec);
        }
    } else {
        assert(d[0].0 != sec);
        assert(forall|k: int| 0 <= k < i - 1 ==> #[trigger] d.drop_first()[k] == d[k + 1]);
        lemma_sec_index_at(d.drop_first(), sec, i - 1);
    }
}

/// When no entry holds `sec`, the first index holding it is the length.
proof fn lemma_sec_index_none(d: DumperView, sec: Option<Seq<char>>)
    requires
        forall|k: int| 0 <= k < d.len() ==> #[trigger] d[k].0 != sec,
    ensures
        sec_index(d, sec) == d.len(),
    decreases d.len(),
{
    if d.len() > 0 {
        assert(d[0].0 != sec);
        assert(forall|k: int|
            0 <= k < d.drop_first().len() ==> #[trigger] d.drop_first()[k] == d[k + 1]);
        lemma_sec_index_none(d.drop_first(), sec);
    }
}

/// Appending an entry appends its section name, if any, to the name list.
pub(crate) proof fn lemma_section_names_snoc(d: DumperView, e: (Option<Seq<char>>, Seq<Seq<char>>))
    ensures
        section_names(d.push(e)) == section_names(d) + (match e.0 {
            Some(name) => seq![name],
            None => Seq::<Seq<char>>::empty(),
        }),
    decreases d.len(),
{
    let t = d.push(e);
    let tail = (match e.0 {
        Some(name) => seq![name],
        None => Seq::<Seq<char>>::empty(),
    });
    if d.len() == 0 {
        assert(t[0] == e);
        assert(t.drop_first() =~= Seq::<(Option<Seq<char>>, Seq<Seq<char>>)>::empty());
        assert(section_names(t.drop_first()) =~= Seq::<Seq<char>>::empty());
        assert(section_names(t) =~= section_names(d) + tail);
    } else {
        assert(t[0] == d[0]);
        assert(t.drop_first() =~= d.drop_first().push(e));
        lemma_section_names_snoc(d.drop_first(), e);
        assert(section_names(t) == (match t[0].0 {
            Some(name) => seq![name],
            None => Seq::<Seq<char>>::empty(),
        }) + section_names(t.drop_first()));
        assert(section_names(t) =~= section_names(d) + tail);
    }
}

} // verus!
