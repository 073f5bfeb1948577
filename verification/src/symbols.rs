//! The symbol collector: a global symbol-name → member-index mapping in
//! discovery order, first writer wins, with a side list of names seen more
//! than once. Duplicates are legal archive data, recorded for diagnostics and
//! never rejected.

use vstd::prelude::*;
use crate::bytes::bytes_eq;
use crate::name_table::{names_distinct, lemma_deep_view_of, first_index_of,
    lemma_first_index_found};

verus! {

/// Mathematical state of a collector: symbol names in discovery order, the
/// member index each is mapped to, and the duplicate names.
pub ghost struct CollectorModel {
    pub names: Seq<Seq<u8>>,
    pub owners: Seq<int>,
    pub dups: Seq<Seq<u8>>,
}

impl CollectorModel {
    /// The empty collector.
    pub open spec fn empty() -> CollectorModel {
        CollectorModel { names: Seq::empty(), owners: Seq::empty(), dups: Seq::empty() }
    }

    /// Well-formedness: one owner per name, no repeated name, no repeated
    /// duplicate entry, and every duplicate entry is a known name.
    pub open spec fn wf(self) -> bool {
        &&& self.names.len() == self.owners.len()
        &&& names_distinct(self.names)
        &&& names_distinct(self.dups)
        &&& forall|k: int| 0 <= k < self.dups.len() ==> self.names.contains(#[trigger] self.dups[k])
    }

    /// The member index `s` is mapped to.
    pub open spec fn owner_of(self, s: Seq<u8>) -> int {
        self.owners[first_index_of(self.names, s)]
    }
}

/// Registering one symbol name for the member at index `owner`: a fresh name
/// is appended with that owner; a known name keeps its first owner and is
/// recorded among the duplicates (once).
pub open spec fn reg_one(m: CollectorModel, owner: int, s: Seq<u8>) -> CollectorModel {
    if !m.names.contains(s) {
        CollectorModel { names: m.names.push(s), owners: m.owners.push(owner), dups: m.dups }
    } else if m.dups.contains(s) {
        m
    } else {
        CollectorModel { names: m.names, owners: m.owners, dups: m.dups.push(s) }
    }
}

/// Registering a whole symbol sequence, in order.
pub open spec fn reg_seq(m: CollectorModel, owner: int, syms: Seq<Seq<u8>>) -> CollectorModel
    decreases syms.len(),
{
    if syms.len() == 0 {
        m
    } else {
        reg_one(reg_seq(m, owner, syms.drop_last()), owner, syms.last())
    }
}

/// One registration step keeps the collector well formed.
pub proof fn lemma_reg_one_wf(m: CollectorModel, owner: int, s: Seq<u8>)
    requires
        m.wf(),
    ensures
        reg_one(m, owner, s).wf(),
        reg_one(m, owner, s).names.len() >= m.names.len(),
{
    let m1 = reg_one(m, owner, s);
    if !m.names.contains(s) {
        assert forall|i: int, j: int| 0 <= i < j < m1.names.len() implies m1.names[i]
            != m1.names[j] by {
            if j < m1.names.len() - 1 {
                assert(m1.names[i] == m.names[i] && m1.names[j] == m.names[j]);
            } else {
                assert(m1.names[j] == s);
                assert(m1.names[i] == m.names[i]);
                assert(m.names.contains(m.names[i]));
            }
        }
        assert forall|k: int| 0 <= k < m1.dups.len() implies m1.names.contains(
            #[trigger] m1.dups[k],
        ) by {
            let d = m1.dups[k];
            assert(m.names.contains(d));
            let x = choose|x: int| 0 <= x < m.names.len() && m.names[x] == d;
            assert(m1.names[x] == d);
        }
    } else if m.dups.contains(s) {
    } else {
        assert forall|i: int, j: int| 0 <= i < j < m1.dups.len() implies m1.dups[i]
            != m1.dups[j] by {
            if j == m1.dups.len() - 1 {
                assert(m1.dups[i] == m.dups[i]);
                assert(m.dups.contains(m.dups[i]));
            }
        }
        assert forall|k: int| 0 <= k < m1.dups.len() implies m1.names.contains(
            #[trigger] m1.dups[k],
        ) by {
            if k == m1.dups.len() - 1 {
                assert(m1.dups[k] == s);
            } else {
                assert(m1.dups[k] == m.dups[k]);
            }
        }
    }
}

/// Registering a sequence keeps the collector well formed.
pub proof fn lemma_reg_seq_wf(m: CollectorModel, owner: int, syms: Seq<Seq<u8>>)
    requires
        m.wf(),
    ensures
        reg_seq(m, owner, syms).wf(),
        reg_seq(m, owner, syms).names.len() >= m.names.len(),
    decreases syms.len(),
{
    if syms.len() > 0 {
        lemma_reg_seq_wf(m, owner, syms.drop_last());
        lemma_reg_one_wf(reg_seq(m, owner, syms.drop_last()), owner, syms.last());
    }
}

/// Collects symbols member by member, the order of reservation determining
/// precedence. Exposed only through `Writer`.
pub struct SymbolCollector {
    /// Symbol names in discovery order (first occurrence each).
    pub names: Vec<Vec<u8>>,
    /// Index of the member that owns each name.
    pub owners: Vec<usize>,
    /// Names seen more than once, in the order their second sighting came.
    pub duplicates: Vec<Vec<u8>>,
}

impl SymbolCollector {
    /// The collector's mathematical state.
    pub open spec fn model(&self) -> CollectorModel {
        CollectorModel {
            names: self.names.deep_view(),
            owners: self.owners@.map_values(|o: usize| o as int),
            dups: self.duplicates.deep_view(),
        }
    }

    /// A fresh, empty collector.
    pub fn new() -> (r: SymbolCollector)
        ensures
            r.model() == CollectorModel::empty(),
            r.model().wf(),
    {
        let r = SymbolCollector { names: Vec::new(), owners: Vec::new(), duplicates: Vec::new() };
        proof {
            assert(r.model().names =~= Seq::<Seq<u8>>::empty());
            assert(r.model().owners =~= Seq::<int>::empty());
            assert(r.model().dups =~= Seq::<Seq<u8>>::empty());
        }
        r
    }

    /// Whether `s` occurs in `v`; if so, also reports the first index.
    fn find_first(v: &Vec<Vec<u8>>, s: &Vec<u8>) -> (r: Option<usize>)
        ensures
            r is Some ==> {
                &&& 0 <= r->Some_0 < v@.len()
                &&& v.deep_view()[r->Some_0 as int] == s@
                &&& v.deep_view().contains(s@)
                &&& first_index_of(v.deep_view(), s@) == r->Some_0
            },
            r is None ==> !v.deep_view().contains(s@),
    {
        let mut j: usize = 0;
        while j < v.len()
            invariant
                j <= v@.len(),
                forall|k: int| 0 <= k < j ==> v.deep_view()[k] != s@,
            decreases v@.len() - j,
        {
            proof {
                lemma_deep_view_of(v);
            }
            if bytes_eq(&v[j], s) {
                proof {
                    lemma_first_index_found(v.deep_view(), s@, j as int);
                }
                return Some(j);
            }
            j = j + 1;
        }
        proof {
            lemma_deep_view_of(v);
            if v.deep_view().contains(s@) {
                let k = choose|k: int|
                    0 <= k < v.deep_view().len() && v.deep_view()[k] == s@;
                assert(v.deep_view()[k] != s@);
            }
        }
        None
    }

    /// Registers every symbol of `syms` for the member at index `owner`.
    pub fn register(&mut self, owner: usize, syms: &Vec<Vec<u8>>)
        requires
            old(self).model().wf(),
        ensures
            final(self).model().wf(),
            final(self).model() == reg_seq(old(self).model(), owner as int, syms.deep_view()),
    {
        let mut i: usize = 0;
        while i < syms.len()
            invariant
                i <= syms@.len(),
                old(self).model().wf(),
                self.model().wf(),
                self.model() == reg_seq(
                    old(self).model(),
                    owner as int,
                    syms.deep_view().take(i as int),
                ),
            decreases syms@.len() - i,
        {
            proof {
                lemma_deep_view_of(syms);
            }
            let ghost pre = self.model();
            let s = &syms[i];
            match Self::find_first(&self.names, s) {
                Some(_) => {
                    match Self::find_first(&self.duplicates, s) {
                        Some(_) => {
                        },
                        None => {
                            proof {
                                lemma_deep_view_of(&self.duplicates);
                            }
                            let s_copy = crate::bytes::copy_bytes(s);
                            self.duplicates.push(s_copy);
                            proof {
                                lemma_deep_view_of(&self.duplicates);
                                assert(self.duplicates.deep_view() =~= pre.dups.push(s@));
                            }
                        },
                    }
                },
                None => {
                    proof {
                        lemma_deep_view_of(&self.names);
                    }
                    let s_copy = crate::bytes::copy_bytes(s);
                    self.names.push(s_copy);
                    self.owners.push(owner);
                    proof {
                        lemma_deep_view_of(&self.names);
                        assert(self.names.deep_view() =~= pre.names.push(s@));
                        assert(self.owners@.map_values(|o: usize| o as int) =~= pre.owners.push(
                            owner as int,
                        ));
                    }
                },
            }
            proof {
                assert(self.model() == reg_one(pre, owner as int, syms.deep_view()[i as int]));
                lemma_reg_one_wf(pre, owner as int, syms.deep_view()[i as int]);
                assert(syms.deep_view().take(i + 1).drop_last() =~= syms.deep_view().take(
                    i as int,
                ));
                assert(syms.deep_view().take(i + 1).last() == syms.deep_view()[i as int]);
            }
            i = i + 1;
        }
        proof {
            assert(syms.deep_view().take(syms@.len() as int) =~= syms.deep_view());
        }
    }
}

/// Registration only hands out owners it was given: if every existing owner
/// index is below `b` and so is the new one, that stays true.
pub proof fn lemma_reg_seq_owner_bound(m: CollectorModel, o: int, syms: Seq<Seq<u8>>, b: int)
    requires
        forall|k: int| 0 <= k < m.owners.len() ==> 0 <= #[trigger] m.owners[k] < b,
        0 <= o < b,
    ensures
        forall|k: int|
            0 <= k < reg_seq(m, o, syms).owners.len() ==> 0 <= #[trigger] reg_seq(
                m,
                o,
                syms,
            ).owners[k] < b,
    decreases syms.len(),
{
    if syms.len() > 0 {
        lemma_reg_seq_owner_bound(m, o, syms.drop_last(), b);
        let m1 = reg_seq(m, o, syms.drop_last());
        let m2 = reg_one(m1, o, syms.last());
        assert forall|k: int| 0 <= k < m2.owners.len() implies 0 <= #[trigger] m2.owners[k]
            < b by {
            if !m1.names.contains(syms.last()) {
                if k < m2.owners.len() - 1 {
                    assert(m2.owners[k] == m1.owners[k]);
                } else {
                    assert(m2.owners[k] == o);
                }
            }
        }
    }
}

/// How many entries of `s` equal `x`.
pub open spec fn count_of(s: Seq<Seq<u8>>, x: Seq<u8>) -> nat
    decreases s.len(),
{
    if s.len() == 0 {
        0
    } else {
        count_of(s.drop_last(), x) + if s.last() == x {
            1nat
        } else {
            0nat
        }
    }
}

/// A sequence without `x` counts `x` zero times.
pub proof fn lemma_count_zero(s: Seq<Seq<u8>>, x: Seq<u8>)
    requires
        !s.contains(x),
    ensures
        count_of(s, x) == 0,
    decreases s.len(),
{
    if s.len() > 0 {
        assert(s[s.len() - 1] != x);
        assert(!s.drop_last().contains(x)) by {
            if s.drop_last().contains(x) {
                let k = choose|k: int| 0 <= k < s.drop_last().len() && s.drop_last()[k] == x;
                assert(s[k] == x);
            }
        }
        lemma_count_zero(s.drop_last(), x);
    }
}

/// A duplicate-free sequence counts each of its members exactly once.
pub proof fn lemma_distinct_count(s: Seq<Seq<u8>>, x: Seq<u8>)
    requires
        names_distinct(s),
        s.contains(x),
    ensures
        count_of(s, x) == 1,
    decreases s.len(),
{
    if s.last() == x {
        assert(!s.drop_last().contains(x)) by {
            if s.drop_last().contains(x) {
                let k = choose|k: int| 0 <= k < s.drop_last().len() && s.drop_last()[k] == x;
                assert(s[k] == x && s[s.len() - 1] == x);
            }
        }
        lemma_count_zero(s.drop_last(), x);
    } else {
        let k = choose|k: int| 0 <= k < s.len() && s[k] == x;
        assert(s.drop_last()[k] == x);
        assert(s.drop_last().contains(x));
        assert(names_distinct(s.drop_last())) by {
            assert(forall|i: int, j: int|
                0 <= i < j < s.drop_last().len() ==> s.drop_last()[i] == s[i] && s.drop_last()[j]
                    == s[j]);
        }
        lemma_distinct_count(s.drop_last(), x);
    }
}

/// Law: a symbol registered against two different members appears exactly
/// once among the recorded duplicates, and the mapping keeps the first of the
/// two members, so the symbol index resolves it to the first-reserved member.
pub proof fn lemma_duplicate_recorded_once(m: CollectorModel, o1: int, o2: int, s: Seq<u8>)
    requires
        m.wf(),
        !m.names.contains(s),
        o1 != o2,
    ensures
        ({
            let m2 = reg_one(reg_one(m, o1, s), o2, s);
            &&& m2.wf()
            &&& m2.names.contains(s)
            &&& m2.owner_of(s) == o1
            &&& count_of(m2.dups, s) == 1
        }),
{
    let m1 = reg_one(m, o1, s);
    lemma_reg_one_wf(m, o1, s);
    assert(m1.names == m.names.push(s));
    assert(m1.names[m.names.len() as int] == s);
    assert(m1.names.contains(s));
    assert forall|k: int| 0 <= k < m.names.len() implies m1.names[k] != s by {
        assert(m1.names[k] == m.names[k]);
        assert(m.names.contains(m.names[k]));
    }
    lemma_first_index_found(m1.names, s, m.names.len() as int);
    assert(m1.owner_of(s) == o1);
    assert(!m.dups.contains(s)) by {
        if m.dups.contains(s) {
            let k = choose|k: int| 0 <= k < m.dups.len() && m.dups[k] == s;
            assert(m.names.contains(m.dups[k]));
        }
    }
    let m2 = reg_one(m1, o2, s);
    lemma_reg_one_wf(m1, o2, s);
    assert(m2.names == m1.names && m2.owners == m1.owners);
    assert(m2.dups == m1.dups.push(s));
    assert(m2.dups[m1.dups.len() as int] == s);
    assert(m2.dups.contains(s));
    lemma_distinct_count(m2.dups, s);
}

} // verus!
