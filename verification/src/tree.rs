//! A higher-level, cached view of a parsed table: the section names in
//! order, and for each section the names of its keys in order.

use vstd::prelude::*;

use crate::datas::{Identifier, Table, Value};
use crate::dumper::{
    dumper_add, find_entry, groups_view, lemma_sec_index_at, osec_view, clone_lines, opt_view,
    sec_index, section_names, sort_lex, sort_vec, views_of, DumperView,
};

verus! {

/// The grouping of a table's entries by section: for each section, in
/// first-appearance order, the key names filed under it in entry order.
pub open spec fn group_fold(s: Seq<(Identifier, Value)>) -> DumperView
    decreases s.len(),
{
    if s.len() == 0 {
        Seq::<(Option<Seq<char>>, Seq<Seq<char>>)>::empty()
    } else {
        dumper_add(group_fold(s.drop_last()), s.last().0@.section, s.last().0@.name)
    }
}

/// A grouping with every name list sorted.
pub open spec fn sort_groups(d: DumperView) -> DumperView {
    d.map_values(|e: (Option<Seq<char>>, Seq<Seq<char>>)| (e.0, sort_lex(e.1)))
}

/// A cached index of a table: the named sections sorted, and for each
/// section (or `None` for the global scope) its key names sorted.
#[derive(Debug)]
pub struct Cache {
    /// The names of the sections present, sorted.
    pub sections: Vec<String>,
    /// For each section present, its key names, sorted.
    pub keys: Vec<(Option<String>, Vec<String>)>,
}

impl Cache {
    /// Builds the cached index of `data`: sections in sorted order, and
    /// each section's key names sorted.
    pub fn from(data: &Table) -> (r: Cache)
        ensures
            views_of(r.sections@) == sort_lex(section_names(group_fold(data.seq_view()))),
            groups_view(r.keys@) == sort_groups(group_fold(data.seq_view())),
    {
        let entries = data.entries();
        let n = entries.len();
        let mut keys: Vec<(Option<String>, Vec<String>)> = Vec::new();
        let mut i: usize = 0;
        proof {
            assert(groups_view(keys@) =~= group_fold(entries@.subrange(0, 0)));
        }
        while i < n
            invariant
                0 <= i <= n,
                n == entries@.len(),
                entries@ == data.seq_view(),
                groups_view(keys@) == group_fold(entries@.subrange(0, i as int)),
            decreases n - i,
        {
            let ghost d0 = groups_view(keys@);
            let ghost t0 = keys@;
            let ghost pre = entries@.subrange(0, i as int);
            let ghost pre1 = entries@.subrange(0, i + 1);
            proof {
                assert(pre1 =~= pre.push(entries@[i as int]));
                assert(pre1.drop_last() =~= pre);
                assert forall|k: int| 0 <= k < t0.len() implies #[trigger] d0[k] == (
                    opt_view(t0[k].0),
                    views_of(t0[k].1@),
                ) by {
                }
            }
            let ident = &entries[i].0;
            let sec_ref = ident.section();
            proof {
                assert(osec_view(sec_ref) == ident@.section);
            }
            let name = ident.name().to_owned();
            match find_entry(&keys, sec_ref) {
                Some(j) => {
                    proof {
                        assert forall|k: int| 0 <= k < j implies #[trigger] d0[k].0
                            != ident@.section by {
                        }
                        lemma_sec_index_at(d0, ident@.section, j as int);
                    }
                    let entry = keys.remove(j);
                    let (sec, mut names) = entry;
                    let ghost names0 = names@;
                    names.push(name);
                    keys.insert(j, (sec, names));
                    proof {
                        assert(keys@ =~= t0.update(j as int, (t0[j as int].0, names)));
                        let target = d0.update(
                            j as int,
                            (d0[j as int].0, d0[j as int].1.push(ident@.name)),
                        );
                        assert forall|k: int| 0 <= k < keys@.len() implies #[trigger] groups_view(
                            keys@,
                        )[k] == target[k] by {
                            assert(groups_view(keys@)[k] == (
                                opt_view(keys@[k].0),
                                views_of(keys@[k].1@),
                            ));
                            if k == j {
                                assert(views_of(names@) =~= views_of(names0).push(ident@.name));
                                assert(views_of(names0) == d0[j as int].1);
                            } else {
                                assert(keys@[k] == t0[k]);
                            }
                        }
                        assert(groups_view(keys@) =~= target);
                    }
                },
                None => {
                    proof {
                        assert forall|k: int| 0 <= k < d0.len() implies #[trigger] d0[k].0
                            != ident@.section by {
                        }
                        lemma_sec_index_at(d0, ident@.section, d0.len() as int);
                    }
                    let sec: Option<String> = match sec_ref {
                        Some(s) => Some(s.to_owned()),
                        None => None,
                    };
                    let mut names: Vec<String> = Vec::new();
                    names.push(name);
                    keys.push((sec, names));
                    proof {
                        assert(views_of(names@) =~= seq![ident@.name]);
                        let target = d0.push((ident@.section, seq![ident@.name]));
                        assert forall|k: int| 0 <= k < keys@.len() implies #[trigger] groups_view(
                            keys@,
                        )[k] == target[k] by {
                            assert(groups_view(keys@)[k] == (
                                opt_view(keys@[k].0),
                                views_of(keys@[k].1@),
                            ));
                            if k < t0.len() {
                                assert(keys@[k] == t0[k]);
                            }
                        }
                        assert(groups_view(keys@) =~= target);
                    }
                },
            }
            i += 1;
        }
        proof {
            assert(entries@.subrange(0, n as int) =~= entries@);
        }
        let ghost grouped = group_fold(data.seq_view());
        let kn = keys.len();
        let mut names: Vec<String> = Vec::new();
        let mut si: usize = 0;
        proof {
            assert(grouped.subrange(0, 0) =~= Seq::<(Option<Seq<char>>, Seq<Seq<char>>)>::empty());
            assert(views_of(names@) =~= section_names(grouped.subrange(0, 0)));
        }
        while si < kn
            invariant
                0 <= si <= kn,
                kn == keys@.len(),
                grouped == groups_view(keys@),
                views_of(names@) == section_names(grouped.subrange(0, si as int)),
            decreases kn - si,
        {
            proof {
                assert(grouped[si as int] == (
                    opt_view(keys@[si as int].0),
                    views_of(keys@[si as int].1@),
                ));
            }
            let ghost pre = grouped.subrange(0, si as int);
            let ghost pre1 = grouped.subrange(0, si + 1);
            proof {
                crate::dumper::lemma_section_names_snoc(pre, grouped[si as int]);
                assert(pre1 =~= pre.push(grouped[si as int]));
            }
            match &keys[si].0 {
                Some(s) => {
                    names.push(s.clone());
                    proof {
                        assert(views_of(names@) =~= section_names(pre1));
                    }
                },
                None => {
                    proof {
                        assert(views_of(names@) =~= section_names(pre1));
                    }
                },
            }
            si += 1;
        }
        proof {
            assert(grouped.subrange(0, kn as int) =~= grouped);
        }
        let sections = sort_vec(names);
        let mut sorted_keys: Vec<(Option<String>, Vec<String>)> = Vec::new();
        let mut ki: usize = 0;
        while ki < kn
            invariant
                0 <= ki <= kn,
                kn == keys@.len(),
                grouped == groups_view(keys@),
                sorted_keys@.len() == ki,
                forall|k: int|
                    0 <= k < ki ==> #[trigger] groups_view(sorted_keys@)[k] == (
                        grouped[k].0,
                        sort_lex(grouped[k].1),
                    ),
            decreases kn - ki,
        {
            proof {
                assert(grouped[ki as int] == (
                    opt_view(keys@[ki as int].0),
                    views_of(keys@[ki as int].1@),
                ));
            }
            let sec: Option<String> = match &keys[ki].0 {
                Some(s) => Some(s.clone()),
                None => None,
            };
            let sorted_names = sort_vec(clone_lines(&keys[ki].1));
            let ghost before = sorted_keys@;
            sorted_keys.push((sec, sorted_names));
            proof {
                assert(opt_view(sec) == grouped[ki as int].0);
                assert(views_of(sorted_names@) == sort_lex(grouped[ki as int].1));
                assert forall|k: int| 0 <= k <= ki implies #[trigger] groups_view(sorted_keys@)[k]
                    == (grouped[k].0, sort_lex(grouped[k].1)) by {
                    assert(groups_view(sorted_keys@)[k] == (
                        opt_view(sorted_keys@[k].0),
                        views_of(sorted_keys@[k].1@),
                    ));
                    if k < ki {
                        assert(sorted_keys@[k] == before[k]);
                        assert(groups_view(before)[k] == (
                            opt_view(before[k].0),
                            views_of(before[k].1@),
                        ));
                    }
                }
            }
            ki += 1;
        }
        proof {
            assert forall|k: int| 0 <= k < kn implies #[trigger] sort_groups(grouped)[k]
                == groups_view(sorted_keys@)[k] by {
            }
            assert(groups_view(sorted_keys@) =~= sort_groups(grouped));
        }
        Cache { sections, keys: sorted_keys }
    }

    /// The sorted key names of a section, or `None` when the table holds
    /// nothing under it.
    pub fn keys_for(&self, section: Option<&str>) -> (r: Option<&Vec<String>>)
        ensures
            match r {
                Some(v) => sec_index(groups_view(self.keys@), osec_view(section)) < self.keys@.len()
                    && views_of(v@) == groups_view(self.keys@)[sec_index(
                    groups_view(self.keys@),
                    osec_view(section),
                )].1,
                None => sec_index(groups_view(self.keys@), osec_view(section))
                    == self.keys@.len(),
            },
    {
        let ghost d = groups_view(self.keys@);
        proof {
            assert forall|k: int| 0 <= k < self.keys@.len() implies #[trigger] d[k] == (
                opt_view(self.keys@[k].0),
                views_of(self.keys@[k].1@),
            ) by {
            }
        }
        match find_entry(&self.keys, section) {
            Some(fi) => {
                proof {
                    assert forall|k: int| 0 <= k < fi implies #[trigger] d[k].0 != osec_view(
                        section,
                    ) by {
                    }
                    lemma_sec_index_at(d, osec_view(section), fi as int);
                }
                Some(&self.keys[fi].1)
            },
            None => {
                proof {
                    assert forall|k: int| 0 <= k < d.len() implies #[trigger] d[k].0 != osec_view(
                        section,
                    ) by {
                    }
                    lemma_sec_index_at(d, osec_view(section), d.len() as int);
                }
                None
            },
        }
    }
}

/// A table together with its cached index, for user-friendly exploration
/// of a parse result.
#[derive(Debug)]
pub struct Tree {
    cache: Cache,
    data: Table,
}

impl Tree {
    /// Builds a tree from the table a parser returned; the index is
    /// computed once, here.
    pub fn from_data(data: Table) -> (r: Tree)
        ensures
            r.table_view() == data@,
            r.entries_view() == data.seq_view(),
            r.consistent(),
            data.wf() ==> r.wf(),
    {
        let cache = Cache::from(&data);
        Tree { cache, data }
    }

    /// The mapping held.
    pub closed spec fn table_view(self) -> Map<
        crate::datas::IdentifierView,
        crate::datas::ValueView,
    > {
        self.data@
    }

    /// The entries held, in insertion order.
    pub closed spec fn entries_view(self) -> Seq<(Identifier, Value)> {
        self.data.seq_view()
    }

    /// The cached index agrees with the held table: the section list is
    /// the sorted section names, and each section's key list is its
    /// sorted key names.
    pub closed spec fn consistent(self) -> bool {
        views_of(self.cache.sections@) == sort_lex(section_names(group_fold(self.entries_view())))
            && groups_view(self.cache.keys@) == sort_groups(group_fold(self.entries_view()))
    }

    /// The held table is well formed and the index agrees with it.
    pub closed spec fn wf(self) -> bool {
        self.data.wf() && self.consistent()
    }

    /// The cached index: when the tree is consistent, its fields hold the
    /// sorted sections and sorted per-section key names of the table.
    pub fn cache(&self) -> (r: &Cache)
        ensures
            self.consistent() ==> views_of(r.sections@) == sort_lex(
                section_names(group_fold(self.entries_view())),
            ) && groups_view(r.keys@) == sort_groups(group_fold(self.entries_view())),
    {
        &self.cache
    }

    /// Takes the table back out of the tree.
    pub fn into_data(self) -> (r: Table)
        ensures
            r@ == self.table_view(),
            r.seq_view() == self.entries_view(),
            self.wf() ==> r.wf(),
    {
        self.data
    }
}

} // verus!
