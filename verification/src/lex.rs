//! Byte-wise lexicographic order on byte sequences, and insertion sort of
//! symbol entries by name, used for the symbol-index linker member.

use vstd::prelude::*;

verus! {

/// Byte-wise lexicographic order: `a <= b`.
pub open spec fn lex_le(a: Seq<u8>, b: Seq<u8>) -> bool
    decreases a.len(),
{
    if a.len() == 0 {
        true
    } else if b.len() == 0 {
        false
    } else if a.first() < b.first() {
        true
    } else if a.first() > b.first() {
        false
    } else {
        lex_le(a.drop_first(), b.drop_first())
    }
}

/// The order is total: of any two sequences, one is `<=` the other.
pub proof fn lemma_lex_total(a: Seq<u8>, b: Seq<u8>)
    ensures
        lex_le(a, b) || lex_le(b, a),
    decreases a.len(),
{
    if a.len() > 0 && b.len() > 0 && a.first() == b.first() {
        lemma_lex_total(a.drop_first(), b.drop_first());
    }
}

/// Executable comparison, `a <= b` under the byte-wise order.
pub fn lex_le_exec(a: &Vec<u8>, b: &Vec<u8>) -> (r: bool)
    ensures
        r == lex_le(a@, b@),
{
    let mut i: usize = 0;
    proof {
        assert(a@.skip(0) =~= a@);
        assert(b@.skip(0) =~= b@);
    }
    loop
        invariant
            i <= a@.len(),
            i <= b@.len(),
            lex_le(a@, b@) == lex_le(a@.skip(i as int), b@.skip(i as int)),
        decreases a@.len() - i,
    {
        if i == a.len() {
            assert(a@.skip(i as int).len() == 0);
            return true;
        }
        if i == b.len() {
            assert(b@.skip(i as int).len() == 0 && a@.skip(i as int).len() > 0);
            return false;
        }
        let x = a[i];
        let y = b[i];
        proof {
            assert(a@.skip(i as int).first() == a@[i as int]);
            assert(b@.skip(i as int).first() == b@[i as int]);
            assert(a@.skip(i as int).drop_first() =~= a@.skip(i + 1));
            assert(b@.skip(i as int).drop_first() =~= b@.skip(i + 1));
        }
        if x < y {
            return true;
        }
        if x > y {
            return false;
        }
        i = i + 1;
    }
}

/// One symbol-index entry: a name and the index of the member that owns it.
pub struct SymEntry {
    /// The symbol name bytes.
    pub name: Vec<u8>,
    /// Index of the owning member, in reservation order.
    pub owner: usize,
}

/// Mathematical value of a symbol entry.
pub ghost struct SymPair {
    pub name: Seq<u8>,
    pub owner: int,
}

impl SymEntry {
    /// The entry's mathematical value.
    pub open spec fn model(&self) -> SymPair {
        SymPair { name: self.name@, owner: self.owner as int }
    }
}

/// The models of a vector of entries.
pub open spec fn models_of(v: Seq<SymEntry>) -> Seq<SymPair> {
    Seq::new(v.len(), |i: int| v[i].model())
}

/// Adjacent-pair sortedness by name.
pub open spec fn sorted_by_name(s: Seq<SymPair>) -> bool {
    forall|i: int| 0 <= i < s.len() - 1 ==> lex_le(#[trigger] s[i].name, s[i + 1].name)
}

/// Insertion of `x` into `s` before the first entry whose name is not below
/// `x`'s.
pub open spec fn insert_by_name(s: Seq<SymPair>, x: SymPair) -> Seq<SymPair>
    decreases s.len(),
{
    if s.len() == 0 {
        seq![x]
    } else if lex_le(x.name, s.first().name) {
        seq![x] + s
    } else {
        seq![s.first()] + insert_by_name(s.drop_first(), x)
    }
}

/// Insertion sort of symbol entries by name.
pub open spec fn sort_by_name(s: Seq<SymPair>) -> Seq<SymPair>
    decreases s.len(),
{
    if s.len() == 0 {
        Seq::empty()
    } else {
        insert_by_name(sort_by_name(s.drop_last()), s.last())
    }
}

/// Inserting grows the sequence by one and inserts exactly the new entry.
pub proof fn lemma_insert_len(s: Seq<SymPair>, x: SymPair)
    ensures
        insert_by_name(s, x).len() == s.len() + 1,
    decreases s.len(),
{
    if s.len() > 0 && !lex_le(x.name, s.first().name) {
        lemma_insert_len(s.drop_first(), x);
    }
}

/// Membership in the inserted sequence is membership in the original, or
/// being the new entry.
pub proof fn lemma_insert_membership(s: Seq<SymPair>, x: SymPair, y: SymPair)
    ensures
        insert_by_name(s, x).contains(y) <==> (s.contains(y) || y == x),
    decreases s.len(),
{
    let r = insert_by_name(s, x);
    if s.len() == 0 {
        assert(r =~= seq![x]);
        assert(r.contains(y) <==> y == x) by {
            if r.contains(y) {
                let k = choose|k: int| 0 <= k < r.len() && r[k] == y;
            }
            if y == x {
                assert(r[0] == y);
            }
        }
    } else if lex_le(x.name, s.first().name) {
        assert(r == seq![x] + s);
        if r.contains(y) {
            let k = choose|k: int| 0 <= k < r.len() && r[k] == y;
            if k == 0 {
            } else {
                assert(s[k - 1] == y);
                assert(s.contains(y));
            }
        }
        if s.contains(y) {
            let k = choose|k: int| 0 <= k < s.len() && s[k] == y;
            assert(r[k + 1] == y);
            assert(r.contains(y));
        }
        if y == x {
            assert(r[0] == y);
            assert(r.contains(y));
        }
    } else {
        lemma_insert_membership(s.drop_first(), x, y);
        let rr = insert_by_name(s.drop_first(), x);
        assert(r == seq![s.first()] + rr);
        if r.contains(y) {
            let k = choose|k: int| 0 <= k < r.len() && r[k] == y;
            if k == 0 {
                assert(s[0] == y);
                assert(s.contains(y));
            } else {
                assert(rr[k - 1] == y);
                assert(rr.contains(y));
                if !(y == x) {
                    assert(s.drop_first().contains(y));
                    let j = choose|j: int|
                        0 <= j < s.drop_first().len() && s.drop_first()[j] == y;
                    assert(s[j + 1] == y);
                }
            }
        }
        if s.contains(y) {
            let k = choose|k: int| 0 <= k < s.len() && s[k] == y;
            if k == 0 {
                assert(r[0] == y);
            } else {
                assert(s.drop_first()[k - 1] == y);
                assert(s.drop_first().contains(y));
                assert(rr.contains(y));
                let j = choose|j: int| 0 <= j < rr.len() && rr[j] == y;
                assert(r[j + 1] == y);
            }
            assert(r.contains(y));
        }
        if y == x {
            assert(rr.contains(y));
            let j = choose|j: int| 0 <= j < rr.len() && rr[j] == y;
            assert(r[j + 1] == y);
            assert(r.contains(y));
        }
    }
}

/// Inserting into a sorted sequence keeps it sorted.
pub proof fn lemma_insert_sorted(s: Seq<SymPair>, x: SymPair)
    requires
        sorted_by_name(s),
    ensures
        sorted_by_name(insert_by_name(s, x)),
    decreases s.len(),
{
    let r = insert_by_name(s, x);
    if s.len() == 0 {
    } else if lex_le(x.name, s.first().name) {
        assert(r == seq![x] + s);
        assert forall|i: int| 0 <= i < r.len() - 1 implies lex_le(
            #[trigger] r[i].name,
            r[i + 1].name,
        ) by {
            if i == 0 {
                assert(r[0] == x && r[1] == s[0]);
            } else {
                assert(r[i] == s[i - 1] && r[i + 1] == s[i]);
            }
        }
    } else {
        assert(sorted_by_name(s.drop_first())) by {
            assert forall|i: int| 0 <= i < s.drop_first().len() - 1 implies lex_le(
                #[trigger] s.drop_first()[i].name,
                s.drop_first()[i + 1].name,
            ) by {
                assert(s.drop_first()[i] == s[i + 1]);
                assert(s.drop_first()[i + 1] == s[i + 2]);
                assert(lex_le(s[i + 1].name, s[i + 2].name));
            }
        }
        lemma_insert_sorted(s.drop_first(), x);
        lemma_lex_total(x.name, s.first().name);
        let rr = insert_by_name(s.drop_first(), x);
        assert(r == seq![s.first()] + rr);
        lemma_insert_len(s.drop_first(), x);
        assert forall|i: int| 0 <= i < r.len() - 1 implies lex_le(
            #[trigger] r[i].name,
            r[i + 1].name,
        ) by {
            if i == 0 {
                assert(r[0] == s.first());
                assert(r[1] == rr[0]);
                if s.drop_first().len() == 0 {
                    assert(rr == seq![x]);
                    assert(rr[0] == x);
                } else if lex_le(x.name, s.drop_first().first().name) {
                    assert(rr[0] == x);
                } else {
                    assert(rr[0] == s.drop_first().first());
                    assert(s.drop_first().first() == s[1]);
                    assert(lex_le(s[0].name, s[1].name));
                }
            } else {
                assert(r[i] == rr[i - 1] && r[i + 1] == rr[i]);
            }
        }
    }
}

/// Sorting: the result is sorted, has the same length, and holds exactly the
/// original entries (which are distinct when their names are).
pub proof fn lemma_sort_by_name(s: Seq<SymPair>)
    ensures
        sorted_by_name(sort_by_name(s)),
        sort_by_name(s).len() == s.len(),
        forall|y: SymPair| sort_by_name(s).contains(y) <==> s.contains(y),
    decreases s.len(),
{
    if s.len() > 0 {
        lemma_sort_by_name(s.drop_last());
        lemma_insert_sorted(sort_by_name(s.drop_last()), s.last());
        lemma_insert_len(sort_by_name(s.drop_last()), s.last());
        assert forall|y: SymPair| sort_by_name(s).contains(y) <==> s.contains(y) by {
            lemma_insert_membership(sort_by_name(s.drop_last()), s.last(), y);
            if s.drop_last().contains(y) {
                let k = choose|k: int| 0 <= k < s.drop_last().len() && s.drop_last()[k] == y;
                assert(s[k] == y);
                assert(s.contains(y));
            }
            if s.contains(y) {
                let k = choose|k: int| 0 <= k < s.len() && s[k] == y;
                if k < s.len() - 1 {
                    assert(s.drop_last()[k] == y);
                    assert(s.drop_last().contains(y));
                }
            }
        }
    }
}

/// If every entry before `p` has a name strictly below `x`'s and the entry at
/// `p` (if any) has a name not below it, inserting at `p` realizes
/// `insert_by_name`.
pub proof fn lemma_insert_at(s: Seq<SymPair>, x: SymPair, p: int)
    requires
        0 <= p <= s.len(),
        forall|k: int| 0 <= k < p ==> !lex_le(x.name, #[trigger] s[k].name),
        p < s.len() ==> lex_le(x.name, s[p].name),
    ensures
        insert_by_name(s, x) == s.insert(p, x),
    decreases p,
{
    if p == 0 {
        if s.len() == 0 {
            assert(insert_by_name(s, x) =~= s.insert(0, x));
        } else {
            assert(insert_by_name(s, x) =~= s.insert(0, x));
        }
    } else {
        assert(!lex_le(x.name, s[0].name));
        assert forall|k: int| 0 <= k < p - 1 implies !lex_le(
            x.name,
            #[trigger] s.drop_first()[k].name,
        ) by {
            assert(s.drop_first()[k] == s[k + 1]);
        }
        assert(p - 1 < s.drop_first().len() ==> lex_le(x.name, s.drop_first()[p - 1].name));
        lemma_insert_at(s.drop_first(), x, p - 1);
        assert(insert_by_name(s, x) == seq![s.first()] + insert_by_name(s.drop_first(), x));
        assert(seq![s.first()] + s.drop_first().insert(p - 1, x) =~= s.insert(p, x));
    }
}

/// Position before which every entry's name is strictly below `name`, and at
/// which (if inside the vector) the entry's name is not below it.
fn find_pos(out: &Vec<SymEntry>, name: &Vec<u8>) -> (p: usize)
    ensures
        p <= out@.len(),
        forall|k: int| 0 <= k < p ==> !lex_le(name@, #[trigger] models_of(out@)[k].name),
        p < out@.len() ==> lex_le(name@, models_of(out@)[p as int].name),
{
    let mut p: usize = 0;
    while p < out.len()
        invariant
            p <= out@.len(),
            forall|k: int| 0 <= k < p ==> !lex_le(name@, #[trigger] models_of(out@)[k].name),
        decreases out@.len() - p,
    {
        proof {
            assert(models_of(out@)[p as int].name == out@[p as int].name@);
        }
        if lex_le_exec(name, &out[p].name) {
            return p;
        }
        p = p + 1;
    }
    p
}

/// Sorts symbol entries by name (stably enough for distinct names: the spec
/// insertion order is deterministic).
pub fn sort_entries(v: Vec<SymEntry>) -> (r: Vec<SymEntry>)
    ensures
        models_of(r@) == sort_by_name(models_of(v@)),
{
    let mut out: Vec<SymEntry> = Vec::new();
    let mut i: usize = 0;
    proof {
        assert(models_of(out@) =~= sort_by_name(models_of(v@).take(0)));
    }
    while i < v.len()
        invariant
            i <= v@.len(),
            models_of(out@) == sort_by_name(models_of(v@).take(i as int)),
            out@.len() == i,
        decreases v@.len() - i,
    {
        proof {
            lemma_sort_by_name(models_of(v@).take(i as int));
        }
        let x = SymEntry {
            name: crate::bytes::copy_bytes(&v[i].name),
            owner: v[i].owner,
        };
        let ghost xm = x.model();
        let p = find_pos(&out, &x.name);
        proof {
            lemma_insert_at(models_of(out@), xm, p as int);
        }
        out.insert(p, x);
        proof {
            assert(models_of(out@) =~= insert_by_name(
                sort_by_name(models_of(v@).take(i as int)),
                xm,
            ));
            assert(models_of(v@).take(i + 1).drop_last() =~= models_of(v@).take(i as int));
            assert(models_of(v@).take(i + 1).last() == models_of(v@)[i as int]);
            assert(models_of(v@)[i as int] == xm);
        }
        i = i + 1;
    }
    proof {
        assert(models_of(v@).take(v@.len() as int) =~= models_of(v@));
    }
    out
}

} // verus!
