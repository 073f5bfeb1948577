//! The archive writer: members are reserved in order, then one `flush`
//! computes the global layout — member byte offsets, the long-name table and
//! the symbol index — and emits the whole archive byte stream, linker members
//! first.

use vstd::prelude::*;
use crate::bytes::{dec_rep, oct_rep, fmt_dec, fmt_oct, push_bytes, copy_bytes, push_be32,
    push_le32, push_le16, lemma_dec_rep_len_u32};
use crate::header::{spec_header, header_fits, encode_header, ArchiveError, NAME_WIDTH};
use crate::name_table::{NameTable, strtab_bytes, spec_offset_of, first_index_of,
    lemma_strtab_prefix_len, lemma_deep_view_of};
use crate::symbols::{SymbolCollector, CollectorModel, reg_seq};
use crate::lex::{SymEntry, SymPair, models_of, sort_by_name, sort_entries, lemma_sort_by_name};
use crate::linker::{names_block, names_len, pair_names, offsets_block, moffs_block,
    indices_block, p1_payload, p2_payload, lemma_names_block_len, lemma_offsets_block_len,
    lemma_moffs_block_len, lemma_indices_block_len, lemma_names_len_ge_count};

verus! {

/// Mathematical value of one reserved member.
pub ghost struct MemberModel {
    pub path: Seq<u8>,
    pub mode: u32,
    pub timestamp: u64,
    pub data: Seq<u8>,
    pub symbols: Seq<Seq<u8>>,
}

/// One object file as stored in the archive: its origin path, permission
/// bits, creation time, already-serialized payload bytes, and the externally
/// visible symbols it defines (supplied by the object-format parser).
pub struct ArchiveCoffObjectFile {
    /// Origin path; may exceed the inline header name field.
    pub path: Vec<u8>,
    /// File permission bits, rendered octal in the header.
    pub mode: u32,
    /// Creation timestamp, rendered decimal in the header.
    pub timestamp: u64,
    /// The member's raw payload bytes.
    pub data: Vec<u8>,
    /// Externally visible defined symbol names, in discovery order.
    pub symbols: Vec<Vec<u8>>,
}

impl ArchiveCoffObjectFile {
    /// The member's mathematical value.
    pub open spec fn model(&self) -> MemberModel {
        MemberModel {
            path: self.path@,
            mode: self.mode,
            timestamp: self.timestamp,
            data: self.data@,
            symbols: self.symbols.deep_view(),
        }
    }
}

/// The eight-byte archive signature, `!<arch>` and a newline.
pub open spec fn magic() -> Seq<u8> {
    seq![0x21u8, 0x3cu8, 0x61u8, 0x72u8, 0x63u8, 0x68u8, 0x3eu8, 0x0au8]
}

/// Reserved name of both linker members: a single slash.
pub open spec fn linker_member_name() -> Seq<u8> {
    seq![0x2fu8]
}

/// Reserved name of the long-name table member: two slashes.
pub open spec fn strtab_member_name() -> Seq<u8> {
    seq![0x2fu8, 0x2fu8]
}

/// `n` rounded up to the next even number.
pub open spec fn padded_len(n: nat) -> nat {
    n + n % 2
}

/// One emitted record: header, payload, and a single pad byte when the
/// payload length is odd (headers are never padded).
pub open spec fn record_bytes(h: Seq<u8>, p: Seq<u8>) -> Seq<u8> {
    h + p + if p.len() % 2 == 1 {
        seq![0x0au8]
    } else {
        Seq::<u8>::empty()
    }
}

/// Long names interned by the first `i` members, in first-occurrence order.
pub open spec fn interned_prefix(ms: Seq<MemberModel>, i: int) -> Seq<Seq<u8>>
    decreases i,
{
    if i <= 0 {
        Seq::empty()
    } else {
        let prev = interned_prefix(ms, i - 1);
        let p = ms[i - 1].path;
        if p.len() <= 16 || prev.contains(p) {
            prev
        } else {
            prev.push(p)
        }
    }
}

/// The frozen long-name table bytes.
pub open spec fn spec_strtab(ms: Seq<MemberModel>) -> Seq<u8> {
    strtab_bytes(interned_prefix(ms, ms.len() as int))
}

/// The name written in a member's header: the path itself when it fits the
/// inline field, else a slash followed by the decimal table offset.
pub open spec fn spec_resolved_name(names: Seq<Seq<u8>>, path: Seq<u8>) -> Seq<u8> {
    if path.len() <= 16 {
        path
    } else {
        seq![0x2fu8] + dec_rep(spec_offset_of(names, path))
    }
}

/// The header name of member `i`, resolved against the table as it stands
/// once members `0..=i` have been interned.
pub open spec fn spec_inline_name(ms: Seq<MemberModel>, i: int) -> Seq<u8> {
    spec_resolved_name(interned_prefix(ms, i + 1), ms[i].path)
}

/// Symbols collected from the first `i` members, in reservation order.
pub open spec fn collect_prefix(ms: Seq<MemberModel>, i: int) -> CollectorModel
    decreases i,
{
    if i <= 0 {
        CollectorModel::empty()
    } else {
        reg_seq(collect_prefix(ms, i - 1), i - 1, ms[i - 1].symbols)
    }
}

/// The finished collector state.
pub open spec fn spec_collector(ms: Seq<MemberModel>) -> CollectorModel {
    collect_prefix(ms, ms.len() as int)
}

/// The collector's entries as (name, owner) pairs, in discovery order.
pub open spec fn sym_pairs(m: CollectorModel) -> Seq<SymPair> {
    Seq::new(m.names.len(), |k: int| SymPair { name: m.names[k], owner: m.owners[k] })
}

/// The symbol-index entries, sorted by name.
pub open spec fn spec_sorted(ms: Seq<MemberModel>) -> Seq<SymPair> {
    sort_by_name(sym_pairs(spec_collector(ms)))
}

/// Size of the symbol-index payload.
pub open spec fn spec_p1_len(ms: Seq<MemberModel>) -> nat {
    4 + 4 * spec_sorted(ms).len() + names_len(pair_names(spec_sorted(ms)))
}

/// Size of the member-index payload.
pub open spec fn spec_p2_len(ms: Seq<MemberModel>) -> nat {
    8 + 4 * ms.len() + 2 * spec_collector(ms).names.len() + names_len(spec_collector(ms).names)
}

/// Bytes before the first real member: magic, the two linker members, and
/// the long-name member when any name required it.
pub open spec fn spec_preamble_len(ms: Seq<MemberModel>) -> nat {
    8 + 60 + padded_len(spec_p1_len(ms)) + 60 + padded_len(spec_p2_len(ms)) + if spec_strtab(
        ms,
    ).len() > 0 {
        60 + padded_len(spec_strtab(ms).len())
    } else {
        0
    }
}

/// Total bytes of the first `i` real members' records.
pub open spec fn members_len_prefix(ms: Seq<MemberModel>, i: int) -> nat
    decreases i,
{
    if i <= 0 {
        0
    } else {
        members_len_prefix(ms, i - 1) + 60 + padded_len(ms[i - 1].data.len())
    }
}

/// Byte offset of real member `i`'s header in the archive stream.
pub open spec fn spec_member_offset(ms: Seq<MemberModel>, i: int) -> nat {
    spec_preamble_len(ms) + members_len_prefix(ms, i)
}

/// Total archive length.
pub open spec fn spec_total_len(ms: Seq<MemberModel>) -> nat {
    spec_member_offset(ms, ms.len() as int)
}

/// The member offsets as recorded in the linker members.
pub open spec fn spec_moffs(ms: Seq<MemberModel>) -> Seq<u32> {
    Seq::new(ms.len(), |i: int| spec_member_offset(ms, i) as u32)
}

/// Whether a member's mode and timestamp fit their header fields.
pub open spec fn member_encodable(m: MemberModel) -> bool {
    &&& oct_rep(m.mode as nat).len() <= 8
    &&& dec_rep(m.timestamp as nat).len() <= 12
}

/// Whether every reserved member is encodable.
pub open spec fn all_encodable(ms: Seq<MemberModel>) -> bool {
    forall|i: int| 0 <= i < ms.len() ==> member_encodable(#[trigger] ms[i])
}

/// Header of real member `i`.
pub open spec fn member_header(ms: Seq<MemberModel>, i: int) -> Seq<u8> {
    spec_header(spec_inline_name(ms, i), ms[i].mode, ms[i].timestamp, ms[i].data.len() as u64)
}

/// Full record of real member `i`.
pub open spec fn member_record(ms: Seq<MemberModel>, i: int) -> Seq<u8> {
    record_bytes(member_header(ms, i), ms[i].data)
}

/// Concatenated records of the first `i` real members.
pub open spec fn member_records(ms: Seq<MemberModel>, i: int) -> Seq<u8>
    decreases i,
{
    if i <= 0 {
        Seq::empty()
    } else {
        member_records(ms, i - 1) + member_record(ms, i - 1)
    }
}

/// Header of the symbol-index member.
pub open spec fn spec_header1(ms: Seq<MemberModel>) -> Seq<u8> {
    spec_header(linker_member_name(), 0, 0, spec_p1_len(ms) as u64)
}

/// Header of the member-index member.
pub open spec fn spec_header2(ms: Seq<MemberModel>) -> Seq<u8> {
    spec_header(linker_member_name(), 0, 0, spec_p2_len(ms) as u64)
}

/// Header of the long-name member.
pub open spec fn spec_strtab_header(ms: Seq<MemberModel>) -> Seq<u8> {
    spec_header(strtab_member_name(), 0, 0, spec_strtab(ms).len() as u64)
}

/// The symbol-index payload.
pub open spec fn spec_p1_payload(ms: Seq<MemberModel>) -> Seq<u8> {
    p1_payload(spec_sorted(ms), spec_moffs(ms))
}

/// The member-index payload.
pub open spec fn spec_p2_payload(ms: Seq<MemberModel>) -> Seq<u8> {
    p2_payload(spec_collector(ms).names, spec_collector(ms).owners, spec_moffs(ms))
}

/// Everything before the first real member's record: magic, both linker
/// members, and the long-name member when present.
pub open spec fn spec_preamble_bytes(ms: Seq<MemberModel>) -> Seq<u8> {
    magic() + record_bytes(spec_header1(ms), spec_p1_payload(ms)) + record_bytes(
        spec_header2(ms),
        spec_p2_payload(ms),
    ) + (if spec_strtab(ms).len() > 0 {
        record_bytes(spec_strtab_header(ms), spec_strtab(ms))
    } else {
        Seq::<u8>::empty()
    })
}

/// The whole archive byte stream for the reserved members `ms`.
pub open spec fn spec_archive(ms: Seq<MemberModel>) -> Seq<u8> {
    spec_preamble_bytes(ms) + member_records(ms, ms.len() as int)
}

/// Real-member record totals only grow with more members.
pub proof fn lemma_members_prefix_le(ms: Seq<MemberModel>, i: int, j: int)
    requires
        0 <= i <= j,
    ensures
        members_len_prefix(ms, i) <= members_len_prefix(ms, j),
    decreases j - i,
{
    if i < j {
        lemma_members_prefix_le(ms, i, j - 1);
    }
}

/// Appending a name to the table appends its bytes and the separator.
pub proof fn lemma_strtab_push(s: Seq<Seq<u8>>, x: Seq<u8>)
    ensures
        strtab_bytes(s.push(x)) == strtab_bytes(s) + x + crate::name_table::name_sep(),
{
    assert(s.push(x).drop_last() =~= s);
    assert(s.push(x).last() == x);
}

/// The interned table only grows from member to member.
pub proof fn lemma_interned_strtab_le(ms: Seq<MemberModel>, i: int, j: int)
    requires
        0 <= i <= j,
    ensures
        strtab_bytes(interned_prefix(ms, i)).len() <= strtab_bytes(interned_prefix(ms, j)).len(),
    decreases j - i,
{
    if i < j {
        lemma_interned_strtab_le(ms, i, j - 1);
        let prev = interned_prefix(ms, j - 1);
        let p = ms[j - 1].path;
        if !(p.len() <= 16 || prev.contains(p)) {
            lemma_strtab_push(prev, p);
        }
    }
}

/// The collector built from the first `i` members is well formed and owns
/// every symbol to one of those members.
pub proof fn lemma_collect_wf(ms: Seq<MemberModel>, i: int)
    requires
        0 <= i,
    ensures
        collect_prefix(ms, i).wf(),
        forall|k: int|
            0 <= k < collect_prefix(ms, i).owners.len() ==> 0 <= #[trigger] collect_prefix(
                ms,
                i,
            ).owners[k] < i,
    decreases i,
{
    if i > 0 {
        lemma_collect_wf(ms, i - 1);
        crate::symbols::lemma_reg_seq_wf(collect_prefix(ms, i - 1), i - 1, ms[i - 1].symbols);
        crate::symbols::lemma_reg_seq_owner_bound(
            collect_prefix(ms, i - 1),
            i - 1,
            ms[i - 1].symbols,
            i,
        );
    } else {
        assert(collect_prefix(ms, i).owners.len() == 0);
    }
}

/// A helper for writing COFF archives (`.lib` files).
///
/// Writing uses a two-phase approach: `reserve_file` queues members in order,
/// and `flush` computes the string table, the symbol index and every member's
/// byte offset before emitting the stream in format order. Duplicate symbols
/// seen while flushing remain queryable afterwards.
pub struct Writer {
    /// The reserved members, in reservation order.
    pub object_files: Vec<ArchiveCoffObjectFile>,
    /// The long-name table, filled while flushing.
    pub string_table: NameTable,
    /// The symbol collector, filled while flushing.
    pub collector: SymbolCollector,
}

impl Writer {
    /// The models of the reserved members, in order.
    pub open spec fn members(&self) -> Seq<MemberModel> {
        Seq::new(self.object_files@.len(), |i: int| self.object_files@[i].model())
    }

    /// Whether this writer has not flushed yet: its table and collector are
    /// still empty.
    pub open spec fn unflushed(&self) -> bool {
        &&& self.collector.model() == CollectorModel::empty()
        &&& self.collector.model().wf()
        &&& self.string_table.wf()
        &&& self.string_table.names@.len() == 0
        &&& self.string_table.data@.len() == 0
    }

    /// Create a new `Writer`.
    pub fn new() -> (r: Writer)
        ensures
            r.unflushed(),
            r.members().len() == 0,
    {
        Writer {
            object_files: Vec::new(),
            string_table: NameTable::new(),
            collector: SymbolCollector::new(),
        }
    }

    /// Includes the given object file in all subsequent calls to `flush`,
    /// after every member already reserved.
    pub fn reserve_file(&mut self, file: ArchiveCoffObjectFile)
        ensures
            final(self).object_files@ == old(self).object_files@.push(file),
            final(self).members() =~= old(self).members().push(file.model()),
            final(self).string_table == old(self).string_table,
            final(self).collector == old(self).collector,
    {
        self.object_files.push(file);
        proof {
            assert(self.members() =~= old(self).members().push(
                self.object_files@.last().model(),
            ));
        }
    }

    /// List of duplicate symbols seen while flushing, in the order their
    /// second sighting came.
    pub fn duplicate_symbols(&self) -> (r: &Vec<Vec<u8>>)
        ensures
            r.deep_view() == self.collector.model().dups,
    {
        &self.collector.duplicates
    }

    /// Returns the header name for `name`: the name itself when it fits the
    /// inline field, else a slash followed by the decimal offset of its
    /// single interned copy in the string table.
    fn get_name(table: &mut NameTable, name: &Vec<u8>) -> (r: Vec<u8>)
        requires
            old(table).wf(),
            old(table).data@.len() <= u32::MAX,
            name@.len() > 16 && !old(table).names.deep_view().contains(name@) ==> old(
                table,
            ).data@.len() + name@.len() + 2 <= u32::MAX,
        ensures
            final(table).wf(),
            final(table).data@.len() <= u32::MAX,
            r@ == spec_resolved_name(final(table).names.deep_view(), name@),
            r@.len() <= 16,
            name@.len() <= 16 ==> *final(table) == *old(table),
            name@.len() > 16 ==> {
                &&& final(table).names.deep_view().contains(name@)
                &&& old(table).names.deep_view().contains(name@) ==> *final(table) == *old(
                    table,
                )
                &&& !old(table).names.deep_view().contains(name@) ==> {
                    &&& final(table).names.deep_view() == old(
                        table,
                    ).names.deep_view().push(name@)
                    &&& final(table).data@ == old(table).data@ + name@
                        + crate::name_table::name_sep()
                }
            },
    {
        if name.len() <= NAME_WIDTH {
            let r = copy_bytes(name);
            return r;
        }
        let off = table.intern(name);
        proof {
            let names1 = table.names.deep_view();
            if old(table).names.deep_view().contains(name@) {
                crate::name_table::lemma_first_index_in_range(names1, name@);
                let fi = first_index_of(names1, name@);
                if fi < names1.len() as int {
                    if fi + 1 <= names1.len() {
                        lemma_strtab_prefix_len(names1, fi, names1.len() as int);
                    }
                }
                assert(names1.take(names1.len() as int) =~= names1);
                assert(off < table.data@.len());
            }
            assert(off <= u32::MAX);
            lemma_dec_rep_len_u32(off as nat);
        }
        let mut r: Vec<u8> = Vec::new();
        r.push(0x2fu8);
        let off_text = fmt_dec(off as u64);
        push_bytes(&mut r, &off_text);
        proof {
            assert(r@ =~= seq![0x2fu8] + dec_rep(off as nat));
        }
        r
    }

    /// Builds the 60-byte header record for one reserved member, resolving
    /// its name through the string table (interning when needed). Fails
    /// exactly when the member's mode or timestamp overflows its field.
    fn prepare_header(table: &mut NameTable, file: &ArchiveCoffObjectFile) -> (r: Result<
        Vec<u8>,
        ArchiveError,
    >)
        requires
            old(table).wf(),
            old(table).data@.len() <= u32::MAX,
            file.path@.len() > 16 && !old(table).names.deep_view().contains(file.path@) ==> old(
                table,
            ).data@.len() + file.path@.len() + 2 <= u32::MAX,
            file.data@.len() <= u32::MAX,
        ensures
            final(table).wf(),
            final(table).data@.len() <= u32::MAX,
            r is Ok <==> member_encodable(file.model()),
            r is Ok ==> r->Ok_0@ == spec_header(
                spec_resolved_name(final(table).names.deep_view(), file.path@),
                file.mode,
                file.timestamp,
                file.data@.len() as u64,
            ),
            r is Ok ==> r->Ok_0@.len() == 60,
            r is Err ==> r->Err_0 == ArchiveError::FieldOverflow,
            file.path@.len() <= 16 ==> *final(table) == *old(table),
            file.path@.len() > 16 ==> {
                &&& final(table).names.deep_view().contains(file.path@)
                &&& old(table).names.deep_view().contains(file.path@) ==> *final(table) == *old(
                    table,
                )
                &&& !old(table).names.deep_view().contains(file.path@) ==> {
                    &&& final(table).names.deep_view() == old(
                        table,
                    ).names.deep_view().push(file.path@)
                    &&& final(table).data@ == old(table).data@ + file.path@
                        + crate::name_table::name_sep()
                }
            },
    {
        let name = Self::get_name(table, &file.path);
        let size = file.data.len() as u64;
        proof {
            lemma_dec_rep_len_u32(size as nat);
        }
        let r = encode_header(&name, file.mode, file.timestamp, size);
        match r {
            Ok(h) => Ok(h),
            Err(e) => Err(e),
        }
    }

    /// Builds the symbol-index payload: entry count, the sorted entries'
    /// member offsets (big-endian), then their null-terminated names.
    fn prepare_first_member(sorted: &Vec<SymEntry>, moffs: &Vec<u32>) -> (r: Vec<u8>)
        requires
            sorted@.len() <= u32::MAX,
            forall|k: int|
                0 <= k < sorted@.len() ==> 0 <= #[trigger] models_of(sorted@)[k].owner
                    < moffs@.len(),
        ensures
            r@ == p1_payload(models_of(sorted@), moffs@),
    {
        let ghost pairs = models_of(sorted@);
        let mut out: Vec<u8> = Vec::new();
        push_be32(&mut out, sorted.len() as u32);
        let mut i: usize = 0;
        proof {
            assert(out@ =~= crate::bytes::be32(sorted@.len() as u32) + offsets_block(
                pairs.take(0),
                moffs@,
            ));
        }
        while i < sorted.len()
            invariant
                i <= sorted@.len(),
                sorted@.len() <= u32::MAX,
                forall|k: int|
                    0 <= k < sorted@.len() ==> 0 <= #[trigger] models_of(sorted@)[k].owner
                        < moffs@.len(),
                pairs == models_of(sorted@),
                out@ == crate::bytes::be32(sorted@.len() as u32) + offsets_block(
                    pairs.take(i as int),
                    moffs@,
                ),
            decreases sorted@.len() - i,
        {
            proof {
                assert(pairs[i as int].owner == sorted@[i as int].owner as int);
            }
            let o = sorted[i].owner;
            push_be32(&mut out, moffs[o]);
            proof {
                assert(pairs.take(i + 1).drop_last() =~= pairs.take(i as int));
                assert(pairs.take(i + 1).last() == pairs[i as int]);
                assert(out@ =~= crate::bytes::be32(sorted@.len() as u32) + offsets_block(
                    pairs.take(i + 1),
                    moffs@,
                ));
            }
            i = i + 1;
        }
        proof {
            assert(pairs.take(pairs.len() as int) =~= pairs);
        }
        let mut j: usize = 0;
        proof {
            assert(pair_names(pairs).take(0) =~= Seq::<Seq<u8>>::empty());
            assert(out@ + names_block(pair_names(pairs).take(0)) =~= out@);
        }
        let ghost base = out@;
        while j < sorted.len()
            invariant
                j <= sorted@.len(),
                pairs == models_of(sorted@),
                base == crate::bytes::be32(sorted@.len() as u32) + offsets_block(pairs, moffs@),
                out@ == base + names_block(pair_names(pairs).take(j as int)),
            decreases sorted@.len() - j,
        {
            push_bytes(&mut out, &sorted[j].name);
            out.push(0u8);
            proof {
                assert(pair_names(pairs)[j as int] == sorted@[j as int].name@);
                assert(pair_names(pairs).take(j + 1).drop_last() =~= pair_names(pairs).take(
                    j as int,
                ));
                assert(pair_names(pairs).take(j + 1).last() == pair_names(pairs)[j as int]);
                assert(out@ =~= base + names_block(pair_names(pairs).take(j + 1)));
            }
            j = j + 1;
        }
        proof {
            assert(pair_names(pairs).take(pair_names(pairs).len() as int) =~= pair_names(pairs));
            assert(out@ =~= p1_payload(pairs, moffs@));
        }
        out
    }

    /// Builds the member-index payload: member count and offsets
    /// (little-endian, reservation order), then symbol count, 1-based member
    /// indices and null-terminated names in discovery order.
    fn prepare_second_member(names: &Vec<Vec<u8>>, owners: &Vec<usize>, moffs: &Vec<u32>) -> (r:
        Vec<u8>)
        requires
            names@.len() == owners@.len(),
            names@.len() <= u32::MAX,
            moffs@.len() <= u32::MAX,
            forall|k: int| 0 <= k < owners@.len() ==> #[trigger] owners@[k] + 1 <= u16::MAX,
        ensures
            r@ == p2_payload(
                names.deep_view(),
                owners@.map_values(|o: usize| o as int),
                moffs@,
            ),
    {
        let ghost gnames = names.deep_view();
        let ghost gowners = owners@.map_values(|o: usize| o as int);
        let mut out: Vec<u8> = Vec::new();
        push_le32(&mut out, moffs.len() as u32);
        let mut i: usize = 0;
        proof {
            assert(out@ =~= crate::bytes::le32(moffs@.len() as u32) + moffs_block(
                moffs@.take(0),
            ));
        }
        while i < moffs.len()
            invariant
                i <= moffs@.len(),
                moffs@.len() <= u32::MAX,
                out@ == crate::bytes::le32(moffs@.len() as u32) + moffs_block(
                    moffs@.take(i as int),
                ),
            decreases moffs@.len() - i,
        {
            push_le32(&mut out, moffs[i]);
            proof {
                assert(moffs@.take(i + 1).drop_last() =~= moffs@.take(i as int));
                assert(out@ =~= crate::bytes::le32(moffs@.len() as u32) + moffs_block(
                    moffs@.take(i + 1),
                ));
            }
            i = i + 1;
        }
        proof {
            assert(moffs@.take(moffs@.len() as int) =~= moffs@);
        }
        push_le32(&mut out, names.len() as u32);
        let ghost base1 = out@;
        let mut j: usize = 0;
        proof {
            assert(out@ =~= base1 + indices_block(gowners.take(0)));
        }
        while j < owners.len()
            invariant
                j <= owners@.len(),
                gowners == owners@.map_values(|o: usize| o as int),
                forall|k: int| 0 <= k < owners@.len() ==> #[trigger] owners@[k] + 1 <= u16::MAX,
                base1 == crate::bytes::le32(moffs@.len() as u32) + moffs_block(moffs@)
                    + crate::bytes::le32(names@.len() as u32),
                out@ == base1 + indices_block(gowners.take(j as int)),
            decreases owners@.len() - j,
        {
            let o = owners[j];
            push_le16(&mut out, (o + 1) as u16);
            proof {
                assert(gowners[j as int] == owners@[j as int] as int);
                assert(gowners.take(j + 1).drop_last() =~= gowners.take(j as int));
                assert(gowners.take(j + 1).last() == gowners[j as int]);
                assert(out@ =~= base1 + indices_block(gowners.take(j + 1)));
            }
            j = j + 1;
        }
        proof {
            assert(gowners.take(gowners.len() as int) =~= gowners);
        }
        let ghost base2 = out@;
        let mut k: usize = 0;
        proof {
            assert(out@ =~= base2 + names_block(gnames.take(0)));
        }
        while k < names.len()
            invariant
                k <= names@.len(),
                gnames == names.deep_view(),
                base2 == crate::bytes::le32(moffs@.len() as u32) + moffs_block(moffs@)
                    + crate::bytes::le32(names@.len() as u32) + indices_block(gowners),
                out@ == base2 + names_block(gnames.take(k as int)),
            decreases names@.len() - k,
        {
            proof {
                lemma_deep_view_of(names);
            }
            push_bytes(&mut out, &names[k]);
            out.push(0u8);
            proof {
                assert(gnames.take(k + 1).drop_last() =~= gnames.take(k as int));
                assert(gnames.take(k + 1).last() == gnames[k as int]);
                assert(out@ =~= base2 + names_block(gnames.take(k + 1)));
            }
            k = k + 1;
        }
        proof {
            lemma_deep_view_of(names);
            assert(gnames.take(gnames.len() as int) =~= gnames);
            assert(out@ =~= p2_payload(gnames, gowners, moffs@));
        }
        out
    }

    /// The frozen long-name table bytes, as emitted in the `//` member.
    fn prepare_string_table(table: &NameTable) -> (r: Vec<u8>)
        ensures
            r@ == table.data@,
    {
        copy_bytes(&table.data)
    }

    /// Writes out the whole archive: magic, symbol-index member, member-index
    /// member, long-name member (when any name needed it), then every
    /// reserved member in reservation order, payloads padded to two-byte
    /// alignment. Fails, leaving the writer untouched, exactly when some
    /// member's mode or timestamp overflows its header field. One-shot: a
    /// flushed writer cannot flush again.
    ///
    /// The format's 4-byte offset fields bound the total archive size to the
    /// `u32` range, and the member index's 2-byte entries bound the member
    /// count; both are demanded up front. The synthetic members are written
    /// with zero date and mode; real members echo their own values, and their
    /// uid and gid fields are left blank.
    #[verifier::loop_isolation(false)]
    #[verifier::rlimit(100)]
    pub fn flush(&mut self) -> (r: Result<Vec<u8>, ArchiveError>)
        requires
            old(self).unflushed(),
            spec_total_len(old(self).members()) <= u32::MAX,
            old(self).members().len() <= 0xFFFF,
        ensures
            final(self).object_files == old(self).object_files,
            r is Ok <==> all_encodable(old(self).members()),
            r is Ok ==> r->Ok_0@ == spec_archive(old(self).members()),
            r is Ok ==> final(self).collector.model() == spec_collector(old(self).members()),
            r is Err ==> *final(self) == *old(self),
            r is Err ==> r->Err_0 == ArchiveError::FieldOverflow,
    {
        let n = self.object_files.len();
        proof {
            assert(old(self).members().len() == n);
        }
        // Reject any member whose mode or timestamp cannot be encoded,
        // before any state changes.
        let mut i: usize = 0;
        while i < n
            invariant
                i <= n,
                *self == *old(self),
                forall|j: int|
                    0 <= j < i ==> member_encodable(#[trigger] old(self).members()[j]),
            decreases n - i,
        {
            let mode_text = fmt_oct(self.object_files[i].mode);
            let date_text = fmt_dec(self.object_files[i].timestamp);
            if mode_text.len() > 8 || date_text.len() > 12 {
                proof {
                    assert(old(self).members()[i as int] == self.object_files@[i as int].model());
                    assert(!member_encodable(old(self).members()[i as int]));
                }
                return Err(ArchiveError::FieldOverflow);
            }
            proof {
                assert(old(self).members()[i as int] == self.object_files@[i as int].model());
            }
            i = i + 1;
        }
        proof {
            assert(all_encodable(old(self).members()));
        }
        // Single pass: resolve names (interning), build member headers, and
        // register every member's symbols.
        let mut headers: Vec<Vec<u8>> = Vec::new();
        let mut i: usize = 0;
        proof {
            assert(self.string_table.names.deep_view() =~= interned_prefix(
                old(self).members(),
                0,
            ));
            assert(self.collector.model() == collect_prefix(old(self).members(), 0));
        }
        while i < n
            invariant
                i <= n,
                self.object_files == old(self).object_files,
                self.string_table.wf(),
                self.string_table.names.deep_view() == interned_prefix(
                    old(self).members(),
                    i as int,
                ),
                self.string_table.data@.len() <= u32::MAX,
                self.collector.model().wf(),
                self.collector.model() == collect_prefix(old(self).members(), i as int),
                headers@.len() == i,
                forall|j: int|
                    0 <= j < i ==> (#[trigger] headers@[j])@ == member_header(
                        old(self).members(),
                        j,
                    ),
            decreases n - i,
        {
            let ghost ms = old(self).members();
            proof {
                assert(ms[i as int] == self.object_files@[i as int].model());
                // The member's payload fits in the format's offsets.
                lemma_members_prefix_le(ms, i + 1, n as int);
                assert(members_len_prefix(ms, i + 1) == members_len_prefix(ms, i as int) + 60
                    + padded_len(ms[i as int].data.len()));
                assert(self.object_files@[i as int].data@.len() <= u32::MAX);
                // If this path is about to be interned, the table still fits.
                let prev = interned_prefix(ms, i as int);
                let p = ms[i as int].path;
                if p.len() > 16 && !prev.contains(p) {
                    lemma_strtab_push(prev, p);
                    assert(interned_prefix(ms, i + 1) == prev.push(p));
                    lemma_interned_strtab_le(ms, i + 1, n as int);
                    assert(strtab_bytes(prev).len() + p.len() + 2 == strtab_bytes(
                        interned_prefix(ms, i + 1),
                    ).len());
                    assert(spec_strtab(ms).len() > 0);
                    assert(strtab_bytes(prev).len() + p.len() + 2 <= u32::MAX);
                }
            }
            let h = match Self::prepare_header(&mut self.string_table, &self.object_files[i]) {
                Ok(h) => h,
                Err(_) => {
                    proof {
                        let ms = old(self).members();
                        assert(member_encodable(ms[i as int]));
                        assert(false);
                    }
                    vstd::pervasive::unreached()
                },
            };
            proof {
                let ms = old(self).members();
                let p = ms[i as int].path;
                let prev = interned_prefix(ms, i as int);
                if p.len() <= 16 {
                    assert(interned_prefix(ms, i + 1) == prev);
                } else if prev.contains(p) {
                    assert(interned_prefix(ms, i + 1) == prev);
                } else {
                    assert(interned_prefix(ms, i + 1) == prev.push(p));
                }
                assert(self.string_table.names.deep_view() == interned_prefix(ms, i + 1));
                assert(h@ == member_header(ms, i as int));
            }
            headers.push(h);
            self.collector.register(i, &self.object_files[i].symbols);
            proof {
                let ms = old(self).members();
                assert(ms[i as int].symbols == self.object_files@[i as int].symbols.deep_view());
                assert(self.collector.model() == collect_prefix(ms, i + 1));
            }
            i = i + 1;
        }
        proof {
            assert(self.members() =~= old(self).members());
        }
        let out = self.emit_archive(&headers);
        Ok(out)
    }

    /// Computes the layout and emits the archive bytes, once the string
    /// table, the collector and every member header are ready.
    #[verifier::loop_isolation(false)]
    #[verifier::rlimit(100)]
    fn emit_archive(&self, headers: &Vec<Vec<u8>>) -> (out: Vec<u8>)
        requires
            self.string_table.wf(),
            self.string_table.names.deep_view() == interned_prefix(
                self.members(),
                self.members().len() as int,
            ),
            self.collector.model().wf(),
            self.collector.model() == spec_collector(self.members()),
            headers@.len() == self.members().len(),
            forall|j: int|
                0 <= j < self.members().len() ==> (#[trigger] headers@[j])@ == member_header(
                    self.members(),
                    j,
                ),
            all_encodable(self.members()),
            spec_total_len(self.members()) <= u32::MAX,
            self.members().len() <= 0xFFFF,
        ensures
            out@ == spec_archive(self.members()),
    {
        let n = self.object_files.len();
        proof {
            let ms = self.members();
            assert(self.collector.model() == spec_collector(ms));
            lemma_collect_wf(ms, n as int);
            lemma_deep_view_of(&self.collector.names);
        }
        let nsyms = self.collector.names.len();
        // Entries of the symbol index, then sorted by name.
        let mut entries: Vec<SymEntry> = Vec::new();
        let mut k: usize = 0;
        proof {
            assert(models_of(entries@) =~= sym_pairs(spec_collector(self.members())).take(
                0,
            ));
        }
        while k < nsyms
            invariant
                k <= nsyms,
                entries@.len() == k,
                models_of(entries@) == sym_pairs(spec_collector(self.members())).take(
                    k as int,
                ),
            decreases nsyms - k,
        {
            proof {
                lemma_deep_view_of(&self.collector.names);
            }
            let e = SymEntry {
                name: copy_bytes(&self.collector.names[k]),
                owner: self.collector.owners[k],
            };
            entries.push(e);
            proof {
                let pairs = sym_pairs(spec_collector(self.members()));
                assert(pairs[k as int] == e.model());
                assert(models_of(entries@) =~= pairs.take(k + 1));
            }
            k = k + 1;
        }
        proof {
            let pairs = sym_pairs(spec_collector(self.members()));
            assert(pairs.take(pairs.len() as int) =~= pairs);
            lemma_sort_by_name(pairs);
        }
        let sorted = sort_entries(entries);
        proof {
            assert(models_of(sorted@) == spec_sorted(self.members()));
        }
        // Payload sizes, known from counts and name lengths alone.
        let mut sum1: usize = 0;
        let mut j: usize = 0;
        proof {
            let sp = spec_sorted(self.members());
            assert(pair_names(sp).take(0) =~= Seq::<Seq<u8>>::empty());
            assert(4 + 4 * sp.len() + names_len(pair_names(sp)) <= u32::MAX);
        }
        while j < sorted.len()
            invariant
                j <= sorted@.len(),
                sum1 == names_len(pair_names(spec_sorted(self.members())).take(j as int)),
            decreases sorted@.len() - j,
        {
            proof {
                let names = pair_names(spec_sorted(self.members()));
                crate::linker::lemma_names_len_prefix_le(names, j + 1);
                assert(names.take(j + 1).drop_last() =~= names.take(j as int));
                assert(names.take(j + 1).last() == names[j as int]);
                assert(names[j as int] == sorted@[j as int].name@);
            }
            sum1 = sum1 + sorted[j].name.len() + 1;
            j = j + 1;
        }
        proof {
            let names = pair_names(spec_sorted(self.members()));
            assert(names.take(names.len() as int) =~= names);
            assert(models_of(sorted@).len() == sorted@.len());
        }
        let n1 = 4 + 4 * nsyms + sum1;
        proof {
            assert(n1 == spec_p1_len(self.members()));
        }
        let mut sum2: usize = 0;
        let mut j: usize = 0;
        proof {
            let cn = spec_collector(self.members()).names;
            assert(cn.take(0) =~= Seq::<Seq<u8>>::empty());
            crate::linker::lemma_names_len_ge_count(cn);
            assert(spec_p2_len(self.members()) <= u32::MAX);
        }
        while j < nsyms
            invariant
                j <= nsyms,
                sum2 == names_len(spec_collector(self.members()).names.take(j as int)),
            decreases nsyms - j,
        {
            proof {
                let cn = spec_collector(self.members()).names;
                crate::linker::lemma_names_len_prefix_le(cn, j + 1);
                assert(cn.take(j + 1).drop_last() =~= cn.take(j as int));
                assert(cn.take(j + 1).last() == cn[j as int]);
                lemma_deep_view_of(&self.collector.names);
            }
            sum2 = sum2 + self.collector.names[j].len() + 1;
            j = j + 1;
        }
        proof {
            let cn = spec_collector(self.members()).names;
            assert(cn.take(cn.len() as int) =~= cn);
        }
        let n2 = 8 + 4 * n + 2 * nsyms + sum2;
        proof {
            assert(n2 == spec_p2_len(self.members()));
        }
        let strtab_len = self.string_table.data.len();
        proof {
            assert(self.string_table.data@ == spec_strtab(self.members()));
        }
        // Offsets: magic, the two linker members, the long-name member, then
        // each real member with alignment padding.
        let mut off: usize = 8 + 60;
        off = off + pad_even(n1);
        off = off + 60;
        off = off + pad_even(n2);
        if strtab_len > 0 {
            off = off + 60 + pad_even(strtab_len);
        }
        proof {
            assert(off == spec_preamble_len(self.members()));
        }
        let mut moffs: Vec<u32> = Vec::new();
        let mut i: usize = 0;
        while i < n
            invariant
                i <= n,
                moffs@.len() == i,
                forall|j: int|
                    0 <= j < i ==> #[trigger] moffs@[j] == spec_moffs(self.members())[j],
                off == spec_member_offset(self.members(), i as int),
            decreases n - i,
        {
            proof {
                let ms = self.members();
                lemma_members_prefix_le(ms, i as int, n as int);
                lemma_members_prefix_le(ms, i + 1, n as int);
                assert(members_len_prefix(ms, i + 1) == members_len_prefix(ms, i as int) + 60
                    + padded_len(ms[i as int].data.len()));
                assert(ms[i as int] == self.object_files@[i as int].model());
            }
            moffs.push(off as u32);
            off = off + 60 + pad_even(self.object_files[i].data.len());
            i = i + 1;
        }
        proof {
            assert(moffs@ =~= spec_moffs(self.members()));
        }
        // The sorted entries own members within range, so the index payloads
        // are well defined.
        proof {
            let ms = self.members();
            let pairs = sym_pairs(spec_collector(ms));
            lemma_sort_by_name(pairs);
            assert forall|k: int|
                0 <= k < models_of(sorted@).len() implies 0 <= #[trigger] models_of(
                sorted@,
            )[k].owner < moffs@.len() by {
                let sp = models_of(sorted@);
                assert(sp.contains(sp[k]));
                assert(pairs.contains(sp[k]));
                let j = choose|j: int| 0 <= j < pairs.len() && pairs[j] == sp[k];
                assert(pairs[j].owner == spec_collector(ms).owners[j]);
            }
        }
        let p1 = Self::prepare_first_member(&sorted, &moffs);
        proof {
            let ms = self.members();
            assert(p1@ == spec_p1_payload(ms));
            crate::linker::lemma_offsets_block_len(spec_sorted(ms), spec_moffs(ms));
            crate::linker::lemma_names_block_len(pair_names(spec_sorted(ms)));
            assert(p1@.len() == n1);
            lemma_deep_view_of(&self.collector.names);
            assert forall|k: int|
                0 <= k < self.collector.owners@.len() implies #[trigger] self.collector.owners@[k]
                + 1 <= u16::MAX by {
                assert(self.collector.model().owners[k] == self.collector.owners@[k] as int);
                assert(0 <= self.collector.model().owners[k] < n);
            }
        }
        let p2 = Self::prepare_second_member(
            &self.collector.names,
            &self.collector.owners,
            &moffs,
        );
        proof {
            let ms = self.members();
            assert(self.collector.names.deep_view() == spec_collector(ms).names);
            assert(self.collector.owners@.map_values(|o: usize| o as int) == spec_collector(
                ms,
            ).owners);
            assert(p2@ == spec_p2_payload(ms));
            crate::linker::lemma_moffs_block_len(spec_moffs(ms));
            crate::linker::lemma_indices_block_len(spec_collector(ms).owners);
            crate::linker::lemma_names_block_len(spec_collector(ms).names);
            assert(p2@.len() == n2);
        }
        let st_payload = Self::prepare_string_table(&self.string_table);
        // Headers of the synthetic members; their fields always fit.
        let mut slash: Vec<u8> = Vec::new();
        slash.push(0x2fu8);
        let mut slash2: Vec<u8> = Vec::new();
        slash2.push(0x2fu8);
        slash2.push(0x2fu8);
        proof {
            assert(slash@ =~= linker_member_name());
            assert(slash2@ =~= strtab_member_name());
            assert(oct_rep(0).len() == 1);
            assert(dec_rep(0).len() == 1);
            lemma_dec_rep_len_u32(n1 as nat);
            lemma_dec_rep_len_u32(n2 as nat);
            lemma_dec_rep_len_u32(strtab_len as nat);
        }
        let h1 = match encode_header(&slash, 0, 0, n1 as u64) {
            Ok(h) => h,
            Err(_) => {
                proof {
                    assert(false);
                }
                vstd::pervasive::unreached()
            },
        };
        let h2 = match encode_header(&slash, 0, 0, n2 as u64) {
            Ok(h) => h,
            Err(_) => {
                proof {
                    assert(false);
                }
                vstd::pervasive::unreached()
            },
        };
        let hs = match encode_header(&slash2, 0, 0, strtab_len as u64) {
            Ok(h) => h,
            Err(_) => {
                proof {
                    assert(false);
                }
                vstd::pervasive::unreached()
            },
        };
        // Emission, in format order.
        let mut out: Vec<u8> = Vec::new();
        out.push(0x21u8);
        out.push(0x3cu8);
        out.push(0x61u8);
        out.push(0x72u8);
        out.push(0x63u8);
        out.push(0x68u8);
        out.push(0x3eu8);
        out.push(0x0au8);
        proof {
            assert(out@ =~= magic());
        }
        emit_record(&mut out, &h1, &p1);
        emit_record(&mut out, &h2, &p2);
        if strtab_len > 0 {
            emit_record(&mut out, &hs, &st_payload);
        }
        proof {
            let ms = self.members();
            assert(h1@ == spec_header1(ms));
            assert(h2@ == spec_header2(ms));
            if strtab_len > 0 {
                assert(hs@ == spec_strtab_header(ms));
            }
            assert(out@ =~= spec_preamble_bytes(ms));
            assert(out@ + member_records(ms, 0) =~= out@);
        }
        let mut i: usize = 0;
        while i < n
            invariant
                i <= n,
                out@ == spec_preamble_bytes(self.members()) + member_records(
                    self.members(),
                    i as int,
                ),
            decreases n - i,
        {
            emit_record(&mut out, &headers[i], &self.object_files[i].data);
            proof {
                let ms = self.members();
                assert(headers@[i as int]@ == member_header(ms, i as int));
                assert(ms[i as int].data == self.object_files@[i as int].data@);
                assert(out@ =~= spec_preamble_bytes(ms) + member_records(ms, i + 1));
            }
            i = i + 1;
        }
        proof {
            assert(out@ == spec_archive(self.members()));
        }
        out
    }
}

/// `x` rounded up to the next even number.
fn pad_even(x: usize) -> (r: usize)
    requires
        padded_len(x as nat) <= u32::MAX,
    ensures
        r == padded_len(x as nat),
{
    x + x % 2
}

/// Appends one record: header, payload, and one pad byte when the payload
/// length is odd.
fn emit_record(out: &mut Vec<u8>, header: &Vec<u8>, payload: &Vec<u8>)
    ensures
        final(out)@ == old(out)@ + record_bytes(header@, payload@),
{
    push_bytes(out, header);
    push_bytes(out, payload);
    if payload.len() % 2 == 1 {
        out.push(0x0au8);
    }
    assert(out@ =~= old(out)@ + record_bytes(header@, payload@));
}

/// A member whose path is long has that path in the table once its turn has
/// come, and its header name fits the inline field.
pub proof fn lemma_member_header_fits(ms: Seq<MemberModel>, i: int)
    requires
        0 <= i < ms.len(),
        all_encodable(ms),
        spec_total_len(ms) <= u32::MAX,
    ensures
        spec_inline_name(ms, i).len() <= 16,
        header_fits(spec_inline_name(ms, i), ms[i].mode, ms[i].timestamp, ms[i].data.len() as u64),
        member_header(ms, i).len() == 60,
{
    let p = ms[i].path;
    let names = interned_prefix(ms, i + 1);
    lemma_members_prefix_le(ms, i + 1, ms.len() as int);
    assert(members_len_prefix(ms, i + 1) == members_len_prefix(ms, i) + 60 + padded_len(
        ms[i].data.len(),
    ));
    assert(ms[i].data.len() <= u32::MAX);
    lemma_dec_rep_len_u32(ms[i].data.len());
    if p.len() > 16 {
        assert(names.contains(p)) by {
            let prev = interned_prefix(ms, i);
            if !prev.contains(p) {
                assert(names == prev.push(p));
                assert(names[names.len() - 1] == p);
            } else {
                let k = choose|k: int| 0 <= k < prev.len() && prev[k] == p;
                assert(names[k] == p);
            }
        }
        crate::name_table::lemma_first_index_in_range(names, p);
        let fi = first_index_of(names, p);
        if fi < names.len() {
            lemma_strtab_prefix_len(names, fi, names.len() as int);
        }
        assert(names.take(names.len() as int) =~= names);
        lemma_interned_strtab_le(ms, i + 1, ms.len() as int);
        assert(spec_offset_of(names, p) <= spec_strtab(ms).len());
        assert(spec_strtab(ms).len() <= u32::MAX);
        lemma_dec_rep_len_u32(spec_offset_of(names, p));
    }
    crate::header::lemma_header_len(
        spec_inline_name(ms, i),
        ms[i].mode,
        ms[i].timestamp,
        ms[i].data.len() as u64,
    );
}

/// Law: every real member's header size field, read as decimal text after
/// trimming its padding, is exactly the member's payload byte length.
pub proof fn lemma_member_size_field_exact(ms: Seq<MemberModel>, i: int)
    requires
        0 <= i < ms.len(),
        all_encodable(ms),
        spec_total_len(ms) <= u32::MAX,
    ensures
        crate::bytes::dec_val(
            crate::header::trim_trailing_spaces(member_header(ms, i).subrange(48, 58)),
        ) == ms[i].data.len(),
{
    lemma_member_header_fits(ms, i);
    lemma_members_prefix_le(ms, i + 1, ms.len() as int);
    assert(members_len_prefix(ms, i + 1) == members_len_prefix(ms, i) + 60 + padded_len(
        ms[i].data.len(),
    ));
    assert(ms[i].data.len() <= u32::MAX);
    crate::header::lemma_size_field_exact(
        spec_inline_name(ms, i),
        ms[i].mode,
        ms[i].timestamp,
        ms[i].data.len() as u64,
    );
}

/// The first `i` member records occupy exactly their computed total size.
pub proof fn lemma_records_len(ms: Seq<MemberModel>, i: int)
    requires
        0 <= i <= ms.len(),
        all_encodable(ms),
        spec_total_len(ms) <= u32::MAX,
    ensures
        member_records(ms, i).len() == members_len_prefix(ms, i),
    decreases i,
{
    if i > 0 {
        lemma_records_len(ms, i - 1);
        lemma_member_header_fits(ms, i - 1);
    }
}

/// The linker-member headers always fit, and the preamble bytes occupy
/// exactly the computed preamble size.
pub proof fn lemma_preamble_bytes_len(ms: Seq<MemberModel>)
    requires
        all_encodable(ms),
        spec_total_len(ms) <= u32::MAX,
    ensures
        spec_preamble_bytes(ms).len() == spec_preamble_len(ms),
        spec_p1_payload(ms).len() == spec_p1_len(ms),
        spec_p2_payload(ms).len() == spec_p2_len(ms),
{
    lemma_collect_wf(ms, ms.len() as int);
    lemma_sort_by_name(sym_pairs(spec_collector(ms)));
    crate::linker::lemma_offsets_block_len(spec_sorted(ms), spec_moffs(ms));
    crate::linker::lemma_names_block_len(pair_names(spec_sorted(ms)));
    crate::linker::lemma_moffs_block_len(spec_moffs(ms));
    crate::linker::lemma_indices_block_len(spec_collector(ms).owners);
    crate::linker::lemma_names_block_len(spec_collector(ms).names);
    lemma_dec_rep_len_u32(spec_p1_len(ms));
    lemma_dec_rep_len_u32(spec_p2_len(ms));
    lemma_dec_rep_len_u32(spec_strtab(ms).len());
    crate::header::lemma_header_len(linker_member_name(), 0, 0, spec_p1_len(ms) as u64);
    crate::header::lemma_header_len(linker_member_name(), 0, 0, spec_p2_len(ms) as u64);
    crate::header::lemma_header_len(strtab_member_name(), 0, 0, spec_strtab(ms).len() as u64);
}

/// Law: the flushed stream is exactly the magic prefix followed by the
/// emitted records, and its length is the magic length plus the sum of every
/// record's header-plus-padded-payload length — no gaps, no overlaps.
pub proof fn lemma_archive_total_len(ms: Seq<MemberModel>)
    requires
        all_encodable(ms),
        spec_total_len(ms) <= u32::MAX,
    ensures
        spec_archive(ms).len() == spec_total_len(ms),
{
    lemma_preamble_bytes_len(ms);
    lemma_records_len(ms, ms.len() as int);
}

/// Law: the symbol-index member's name entries are sorted: every adjacent
/// pair of names obeys byte-wise lexicographic order.
pub proof fn lemma_symbol_index_sorted(ms: Seq<MemberModel>)
    ensures
        crate::lex::sorted_by_name(spec_sorted(ms)),
{
    lemma_sort_by_name(sym_pairs(spec_collector(ms)));
}

/// The concatenated records of the first `j` members begin with those of the
/// first `i`.
pub proof fn lemma_records_prefix(ms: Seq<MemberModel>, i: int, j: int)
    requires
        0 <= i <= j <= ms.len(),
        all_encodable(ms),
        spec_total_len(ms) <= u32::MAX,
    ensures
        member_records(ms, j).subrange(0, members_len_prefix(ms, i) as int) == member_records(
            ms,
            i,
        ),
    decreases j - i,
{
    lemma_records_len(ms, i);
    lemma_records_len(ms, j);
    if i == j {
        assert(member_records(ms, j).subrange(0, members_len_prefix(ms, i) as int)
            =~= member_records(ms, i));
    } else {
        lemma_records_prefix(ms, i, j - 1);
        lemma_records_len(ms, j - 1);
        lemma_members_prefix_le(ms, i, j - 1);
        assert(member_records(ms, j) == member_records(ms, j - 1) + member_record(ms, j - 1));
        assert(member_records(ms, j).subrange(0, members_len_prefix(ms, i) as int)
            =~= member_records(ms, j - 1).subrange(0, members_len_prefix(ms, i) as int));
    }
}

/// Law: each member's recorded offset points exactly at the byte position of
/// that member's 60-byte header inside the archive stream.
#[verifier::rlimit(60)]
pub proof fn lemma_member_offset_points_at_header(ms: Seq<MemberModel>, i: int)
    requires
        0 <= i < ms.len(),
        all_encodable(ms),
        spec_total_len(ms) <= u32::MAX,
    ensures
        spec_archive(ms).subrange(
            spec_member_offset(ms, i) as int,
            spec_member_offset(ms, i) as int + 60,
        ) == member_header(ms, i),
{
    lemma_preamble_bytes_len(ms);
    lemma_records_len(ms, ms.len() as int);
    lemma_records_len(ms, i);
    lemma_records_prefix(ms, i + 1, ms.len() as int);
    lemma_records_len(ms, i + 1);
    lemma_member_header_fits(ms, i);
    lemma_members_prefix_le(ms, i + 1, ms.len() as int);
    let rec = member_records(ms, ms.len() as int);
    let lo = members_len_prefix(ms, i) as int;
    assert(member_records(ms, i + 1) == member_records(ms, i) + member_record(ms, i));
    assert(rec.subrange(0, members_len_prefix(ms, i + 1) as int) == member_records(ms, i + 1));
    assert(rec.subrange(lo, lo + 60) =~= member_header(ms, i)) by {
        assert forall|k: int| 0 <= k < 60 implies rec.subrange(lo, lo + 60)[k] == member_header(
            ms,
            i,
        )[k] by {
            assert(rec[lo + k] == rec.subrange(0, members_len_prefix(ms, i + 1) as int)[lo + k]);
            assert(member_records(ms, i + 1)[lo + k] == member_record(ms, i)[k]);
            assert(member_record(ms, i)[k] == member_header(ms, i)[k]);
        }
    }
    assert(spec_archive(ms).subrange(
        spec_member_offset(ms, i) as int,
        spec_member_offset(ms, i) as int + 60,
    ) =~= rec.subrange(lo, lo + 60));
}

/// Law: every offset recorded in the symbol-index member is the member
/// offset of the symbol's owning member — the member the collector mapped
/// the name to, first writer winning — and that offset points at the byte
/// position of that member's header.
pub proof fn lemma_symbol_index_resolves(ms: Seq<MemberModel>, k: int)
    requires
        0 <= k < spec_sorted(ms).len(),
        all_encodable(ms),
        spec_total_len(ms) <= u32::MAX,
    ensures
        ({
            let e = spec_sorted(ms)[k];
            &&& 0 <= e.owner < ms.len()
            &&& sym_pairs(spec_collector(ms)).contains(e)
            &&& spec_moffs(ms)[e.owner] == spec_member_offset(ms, e.owner) as u32
            &&& spec_archive(ms).subrange(
                spec_member_offset(ms, e.owner) as int,
                spec_member_offset(ms, e.owner) as int + 60,
            ) == member_header(ms, e.owner)
        }),
{
    let pairs = sym_pairs(spec_collector(ms));
    lemma_sort_by_name(pairs);
    let e = spec_sorted(ms)[k];
    assert(spec_sorted(ms).contains(e));
    assert(pairs.contains(e));
    lemma_collect_wf(ms, ms.len() as int);
    let j = choose|j: int| 0 <= j < pairs.len() && pairs[j] == e;
    assert(pairs[j].owner == spec_collector(ms).owners[j]);
    lemma_member_offset_points_at_header(ms, e.owner);
}

} // verus!
