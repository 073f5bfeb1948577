//! The fixed 60-byte per-member header record: ASCII-text fields, each
//! left-justified and space-padded to its fixed width, closed by a two-byte
//! terminator. Overflow of any field is a fatal encoding error, never a
//! truncation.

use vstd::prelude::*;
use crate::bytes::{dec_rep, oct_rep, dec_val, fmt_dec, fmt_oct, push_bytes, lemma_dec_val_of_rep,
    lemma_dec_rep_digits};

verus! {

/// Width of the inline name field.
pub const NAME_WIDTH: usize = 16;

/// Width of the modification-time field.
pub const DATE_WIDTH: usize = 12;

/// Width of the mode field (octal text).
pub const MODE_WIDTH: usize = 8;

/// Width of the size field (decimal text).
pub const SIZE_WIDTH: usize = 10;

/// Total header length: name 16 + date 12 + uid 6 + gid 6 + mode 8 + size 10
/// + terminator 2.
pub const HEADER_LEN: usize = 60;

/// The error a build can end in: a textual field encoding exceeded its fixed
/// width.
#[derive(Debug, PartialEq, Eq, Structural, Clone, Copy)]
pub enum ArchiveError {
    FieldOverflow,
}

/// `w` ASCII space bytes.
pub open spec fn spaces(w: nat) -> Seq<u8> {
    Seq::new(w, |i: int| 0x20u8)
}

/// `s` left-justified in a field of width `w`, space-padded on the right.
pub open spec fn pad_field(s: Seq<u8>, w: nat) -> Seq<u8>
    recommends
        s.len() <= w,
{
    s + spaces((w - s.len()) as nat)
}

/// The header's closing two constant bytes.
pub open spec fn terminator() -> Seq<u8> {
    seq![0x60u8, 0x0au8]
}

/// The 60 header bytes for the given field values.
pub open spec fn spec_header(name: Seq<u8>, mode: u32, timestamp: u64, size: u64) -> Seq<u8> {
    pad_field(name, 16) + pad_field(dec_rep(timestamp as nat), 12) + spaces(6) + spaces(6)
        + pad_field(oct_rep(mode as nat), 8) + pad_field(dec_rep(size as nat), 10) + terminator()
}

/// Whether every textual field of a header with these values fits its width.
pub open spec fn header_fits(name: Seq<u8>, mode: u32, timestamp: u64, size: u64) -> bool {
    &&& name.len() <= 16
    &&& dec_rep(timestamp as nat).len() <= 12
    &&& oct_rep(mode as nat).len() <= 8
    &&& dec_rep(size as nat).len() <= 10
}

/// A header whose fields fit is exactly 60 bytes long.
pub proof fn lemma_header_len(name: Seq<u8>, mode: u32, timestamp: u64, size: u64)
    requires
        header_fits(name, mode, timestamp, size),
    ensures
        spec_header(name, mode, timestamp, size).len() == 60,
{
}

/// Appends `field`, space-padded to `width`, to `out`.
pub fn push_padded(out: &mut Vec<u8>, field: &Vec<u8>, width: usize)
    requires
        field@.len() <= width,
    ensures
        final(out)@ == old(out)@ + pad_field(field@, width as nat),
{
    push_bytes(out, field);
    let mut i: usize = field.len();
    while i < width
        invariant
            field@.len() <= i <= width,
            out@ == old(out)@ + field@ + spaces((i - field@.len()) as nat),
        decreases width - i,
    {
        out.push(0x20u8);
        assert(out@ =~= old(out)@ + field@ + spaces((i + 1 - field@.len()) as nat));
        i = i + 1;
    }
    assert(out@ =~= old(out)@ + pad_field(field@, width as nat));
}

/// Encodes one 60-byte header. Returns the field-overflow error exactly when
/// some textual field does not fit its fixed width.
pub fn encode_header(name: &Vec<u8>, mode: u32, timestamp: u64, size: u64) -> (r: Result<
    Vec<u8>,
    ArchiveError,
>)
    ensures
        r is Ok <==> header_fits(name@, mode, timestamp, size),
        r is Ok ==> r->Ok_0@ == spec_header(name@, mode, timestamp, size),
        r is Ok ==> r->Ok_0@.len() == 60,
{
    let date = fmt_dec(timestamp);
    let mode_text = fmt_oct(mode);
    let size_text = fmt_dec(size);
    if name.len() > NAME_WIDTH || date.len() > DATE_WIDTH || mode_text.len() > MODE_WIDTH
        || size_text.len() > SIZE_WIDTH {
        return Err(ArchiveError::FieldOverflow);
    }
    let mut h: Vec<u8> = Vec::new();
    push_padded(&mut h, name, NAME_WIDTH);
    push_padded(&mut h, &date, DATE_WIDTH);
    let blank: Vec<u8> = Vec::new();
    push_padded(&mut h, &blank, 6);
    push_padded(&mut h, &blank, 6);
    push_padded(&mut h, &mode_text, MODE_WIDTH);
    push_padded(&mut h, &size_text, SIZE_WIDTH);
    h.push(0x60u8);
    h.push(0x0au8);
    proof {
        assert(blank@ =~= Seq::<u8>::empty());
        assert(pad_field(blank@, 6) =~= spaces(6));
        assert(h@ =~= spec_header(name@, mode, timestamp, size));
        lemma_header_len(name@, mode, timestamp, size);
    }
    Ok(h)
}

/// `s` with its trailing ASCII spaces removed.
pub open spec fn trim_trailing_spaces(s: Seq<u8>) -> Seq<u8>
    decreases s.len(),
{
    if s.len() > 0 && s.last() == 0x20u8 {
        trim_trailing_spaces(s.drop_last())
    } else {
        s
    }
}

/// Trimming removes exactly the padding that `pad_field` added, provided the
/// field itself does not end in a space.
pub proof fn lemma_trim_of_pad(s: Seq<u8>, w: nat)
    requires
        s.len() <= w,
        s.len() > 0 ==> s.last() != 0x20u8,
    ensures
        trim_trailing_spaces(pad_field(s, w)) == s,
    decreases w - s.len(),
{
    if s.len() == w {
        assert(pad_field(s, w) =~= s);
        if s.len() > 0 {
            assert(trim_trailing_spaces(s) == s);
        }
    } else {
        let p = pad_field(s, w);
        assert(p.len() == w);
        assert(p.last() == 0x20u8);
        assert(p.drop_last() =~= pad_field(s, (w - 1) as nat));
        lemma_trim_of_pad(s, (w - 1) as nat);
    }
}

/// Law: in any header, the size field, trimmed of its padding and read as
/// decimal text, is exactly the size the header was encoded from.
pub proof fn lemma_size_field_exact(name: Seq<u8>, mode: u32, timestamp: u64, size: u64)
    requires
        header_fits(name, mode, timestamp, size),
    ensures
        dec_val(trim_trailing_spaces(spec_header(name, mode, timestamp, size).subrange(48, 58)))
            == size,
{
    let h = spec_header(name, mode, timestamp, size);
    assert(h.subrange(48, 58) =~= pad_field(dec_rep(size as nat), 10));
    lemma_dec_rep_digits(size as nat);
    assert(dec_rep(size as nat).last() != 0x20u8);
    lemma_trim_of_pad(dec_rep(size as nat), 10);
    lemma_dec_val_of_rep(size as nat);
}

} // verus!
