//! The deduplicating long-name table: names too long for the inline header
//! field are appended once, each followed by a fixed two-byte separator, and
//! referenced by the byte offset at which they begin.

use vstd::prelude::*;
use crate::bytes::{bytes_eq, copy_bytes};

verus! {

/// The two-byte separator written after each stored name, so offsets are
/// unambiguous.
pub open spec fn name_sep() -> Seq<u8> {
    seq![0x2fu8, 0x0au8]
}

/// The serialized bytes of a table holding `names` in insertion order.
pub open spec fn strtab_bytes(names: Seq<Seq<u8>>) -> Seq<u8>
    decreases names.len(),
{
    if names.len() == 0 {
        Seq::empty()
    } else {
        strtab_bytes(names.drop_last()) + names.last() + name_sep()
    }
}

/// Whether `names` holds no two equal byte sequences.
pub open spec fn names_distinct(names: Seq<Seq<u8>>) -> bool {
    forall|i: int, j: int| 0 <= i < j < names.len() ==> names[i] != names[j]
}

/// Index of the first occurrence of `n` in `names`.
pub open spec fn first_index_of(names: Seq<Seq<u8>>, n: Seq<u8>) -> int
    decreases names.len(),
{
    if names.len() == 0 {
        0
    } else if names.first() == n {
        0
    } else {
        1 + first_index_of(names.drop_first(), n)
    }
}

/// Offset at which `n` begins inside the serialized table.
pub open spec fn spec_offset_of(names: Seq<Seq<u8>>, n: Seq<u8>) -> nat {
    strtab_bytes(names.take(first_index_of(names, n))).len()
}

/// Indexing a vector of byte vectors through `deep_view` reads the inner
/// vector's own view.
pub proof fn lemma_deep_view_index(v: &Vec<Vec<u8>>, j: int)
    requires
        0 <= j < v@.len(),
    ensures
        v.deep_view().len() == v@.len(),
        v.deep_view()[j] == v@[j]@,
{
    assert(v.deep_view()[j] =~~= v@[j]@);
}

/// The deep view of a vector of byte vectors, pointwise.
pub proof fn lemma_deep_view_of(v: &Vec<Vec<u8>>)
    ensures
        v.deep_view().len() == v@.len(),
        forall|i: int| 0 <= i < v@.len() ==> v.deep_view()[i] == v@[i]@,
{
    assert forall|i: int| 0 <= i < v@.len() implies v.deep_view()[i] == v@[i]@ by {
        assert(v.deep_view()[i] =~~= v@[i]@);
    }
}

/// Pushing onto a vector of byte vectors pushes the inner view onto the deep
/// view.
pub proof fn lemma_deep_view_push(v0: Seq<Vec<u8>>, v1: Seq<Vec<u8>>, x: Vec<u8>)
    requires
        v1 == v0.push(x),
    ensures
        Seq::new(v1.len(), |i: int| v1[i].deep_view()) == Seq::new(
            v0.len(),
            |i: int| v0[i].deep_view(),
        ).push(x@),
{
    assert(Seq::new(v1.len(), |i: int| v1[i].deep_view()) =~~= Seq::new(
        v0.len(),
        |i: int| v0[i].deep_view(),
    ).push(x@));
}

/// Deduplicating store of long member names; frozen (serialized) only at
/// flush time.
pub struct NameTable {
    /// Serialized table bytes so far.
    pub data: Vec<u8>,
    /// The stored names, in first-occurrence order.
    pub names: Vec<Vec<u8>>,
    /// Byte offset of each stored name inside `data`.
    pub offsets: Vec<usize>,
}

impl NameTable {
    /// Structural invariant tying the three fields together.
    pub open spec fn wf(&self) -> bool {
        &&& self.names@.len() == self.offsets@.len()
        &&& names_distinct(self.names.deep_view())
        &&& self.data@ == strtab_bytes(self.names.deep_view())
        &&& forall|i: int|
            0 <= i < self.offsets@.len() ==> self.offsets@[i] == strtab_bytes(
                self.names.deep_view().take(i),
            ).len()
    }

    /// A fresh, empty table.
    pub fn new() -> (r: NameTable)
        ensures
            r.wf(),
            r.names@.len() == 0,
            r.data@.len() == 0,
    {
        let r = NameTable { data: Vec::new(), names: Vec::new(), offsets: Vec::new() };
        proof {
            assert(r.names.deep_view() =~= Seq::<Seq<u8>>::empty());
            assert(r.data@ =~= strtab_bytes(r.names.deep_view()));
        }
        r
    }

    /// Interns `name`: returns the offset of its single stored copy, appending
    /// the name (and the separator) only on first sight.
    pub fn intern(&mut self, name: &Vec<u8>) -> (off: usize)
        requires
            old(self).wf(),
        ensures
            final(self).wf(),
            final(self).names.deep_view().contains(name@),
            off == spec_offset_of(final(self).names.deep_view(), name@),
            old(self).names.deep_view().contains(name@) ==> *final(self) == *old(self),
            !old(self).names.deep_view().contains(name@) ==> {
                &&& final(self).names.deep_view() == old(self).names.deep_view().push(name@)
                &&& final(self).data@ == old(self).data@ + name@ + name_sep()
                &&& off == old(self).data@.len()
            },
    {
        let mut j: usize = 0;
        while j < self.names.len()
            invariant
                *self == *old(self),
                j <= self.names@.len(),
                old(self).wf(),
                forall|k: int| 0 <= k < j ==> old(self).names.deep_view()[k] != name@,
            decreases self.names@.len() - j,
        {
            proof {
                assert(self.names@ == old(self).names@);
                lemma_deep_view_index(&self.names, j as int);
            }
            if bytes_eq(&self.names[j], name) {
                proof {
                    assert(old(self).names.deep_view()[j as int] == name@);
                    lemma_first_index_found(old(self).names.deep_view(), name@, j as int);
                }
                return self.offsets[j];
            }
            j = j + 1;
        }
        let off = self.data.len();
        proof {
            let names0 = old(self).names.deep_view();
            assert(!names0.contains(name@)) by {
                if names0.contains(name@) {
                    let k = choose|k: int| 0 <= k < names0.len() && names0[k] == name@;
                    assert(names0[k] != name@);
                }
            }
        }
        let name_copy = copy_bytes(name);
        self.names.push(name_copy);
        self.offsets.push(off);
        proof {
            lemma_deep_view_push(old(self).names@, self.names@, name_copy);
            assert(self.names.deep_view() =~= old(self).names.deep_view().push(name@));
        }
        let mut k: usize = 0;
        while k < name.len()
            invariant
                k <= name@.len(),
                self.data@ == old(self).data@ + name@.take(k as int),
                self.names.deep_view() == old(self).names.deep_view().push(name@),
                self.offsets@ == old(self).offsets@.push(off),
            decreases name@.len() - k,
        {
            self.data.push(name[k]);
            assert(self.data@ =~= old(self).data@ + name@.take(k + 1));
            k = k + 1;
        }
        self.data.push(0x2fu8);
        self.data.push(0x0au8);
        proof {
            let names0 = old(self).names.deep_view();
            let names1 = self.names.deep_view();
            assert(names1 =~= names0.push(name@));
            assert(names1.drop_last() =~= names0);
            assert(names1.last() == name@);
            assert(self.data@ =~= old(self).data@ + name@ + name_sep());
            assert(strtab_bytes(names1) == strtab_bytes(names0) + name@ + name_sep());
            assert(self.data@ =~= strtab_bytes(names1));
            assert forall|i: int| 0 <= i < self.offsets@.len() implies self.offsets@[i]
                == strtab_bytes(names1.take(i)).len() by {
                if i < self.offsets@.len() - 1 {
                    assert(names1.take(i) =~= names0.take(i));
                } else {
                    assert(names1.take(i) =~= names0);
                }
            }
            lemma_first_index_found(names1, name@, names0.len() as int);
            assert(names1.take(names0.len() as int) =~= names0);
        }
        off
    }
}

/// If `names[j] == n` and no earlier entry equals `n`, then `j` is the first
/// index of `n`.
pub proof fn lemma_first_index_found(names: Seq<Seq<u8>>, n: Seq<u8>, j: int)
    requires
        0 <= j < names.len(),
        names[j] == n,
        forall|k: int| 0 <= k < j ==> names[k] != n,
    ensures
        first_index_of(names, n) == j,
        names.contains(n),
    decreases j,
{
    if j == 0 {
    } else {
        assert(names.first() != n);
        lemma_first_index_found(names.drop_first(), n, j - 1);
    }
}

/// A contained name's first index is a valid index holding that name.
pub proof fn lemma_first_index_in_range(names: Seq<Seq<u8>>, n: Seq<u8>)
    requires
        names.contains(n),
    ensures
        0 <= first_index_of(names, n) < names.len(),
        names[first_index_of(names, n)] == n,
    decreases names.len(),
{
    if names.first() == n {
    } else {
        assert(names.drop_first().contains(n)) by {
            let k = choose|k: int| 0 <= k < names.len() && names[k] == n;
            assert(names.drop_first()[k - 1] == n);
        }
        lemma_first_index_in_range(names.drop_first(), n);
    }
}

/// Serialized length grows strictly with each stored name.
pub proof fn lemma_strtab_prefix_len(names: Seq<Seq<u8>>, i: int, j: int)
    requires
        0 <= i < j <= names.len(),
    ensures
        strtab_bytes(names.take(i)).len() < strtab_bytes(names.take(j)).len(),
    decreases j - i,
{
    if j == i + 1 {
        assert(names.take(j).drop_last() =~= names.take(i));
        assert(strtab_bytes(names.take(j)) == strtab_bytes(names.take(i)) + names[i]
            + name_sep());
    } else {
        lemma_strtab_prefix_len(names, i, j - 1);
        lemma_strtab_prefix_len(names, j - 1, j);
    }
}

/// Law: two members with byte-identical long names are assigned the same
/// offset (`intern` returns the stored entry's offset); entries with distinct
/// names have distinct offsets, and the earlier-interned name's offset is
/// strictly smaller than the later one's.
pub proof fn lemma_distinct_names_ordered_offsets(t: &NameTable, i: int, j: int)
    requires
        t.wf(),
        0 <= i < j < t.names@.len(),
    ensures
        t.names.deep_view()[i] != t.names.deep_view()[j],
        t.offsets@[i] < t.offsets@[j],
{
    lemma_strtab_prefix_len(t.names.deep_view(), i, j);
}

} // verus!
