use coff_archive::writer::{ArchiveCoffObjectFile, Writer};
use coff_archive::bytes::{fmt_dec, fmt_oct};
use coff_archive::header::ArchiveError;

fn member(path: &[u8], mode: u32, timestamp: u64, data: &[u8], syms: &[&[u8]]) -> ArchiveCoffObjectFile {
    ArchiveCoffObjectFile {
        path: path.to_vec(),
        mode,
        timestamp,
        data: data.to_vec(),
        symbols: syms.iter().map(|s| s.to_vec()).collect(),
    }
}

#[test]
fn decimal_and_octal_renderings() {
    assert_eq!(fmt_dec(0), b"0".to_vec());
    assert_eq!(fmt_dec(1234), b"1234".to_vec());
    assert_eq!(fmt_dec(10), b"10".to_vec());
    assert_eq!(fmt_oct(0), b"0".to_vec());
    assert_eq!(fmt_oct(420), b"644".to_vec());
    assert_eq!(fmt_oct(8), b"10".to_vec());
}

#[test]
fn empty_archive_is_magic_plus_two_empty_linker_members() {
    let mut w = Writer::new();
    let out = w.flush().unwrap();
    // magic 8 + header 60 + payload 4 + header 60 + payload 8
    assert_eq!(out.len(), 140);
    assert_eq!(&out[0..8], b"!<arch>\n");
    // first linker member: name "/", symbol count 0 (big-endian)
    assert_eq!(out[8], b'/');
    assert_eq!(out[9], b' ');
    assert_eq!(&out[68..72], &[0, 0, 0, 0]);
    // second linker member: name "/", member count 0 then symbol count 0
    assert_eq!(out[72], b'/');
    assert_eq!(&out[132..136], &[0, 0, 0, 0]);
    assert_eq!(&out[136..140], &[0, 0, 0, 0]);
}

#[test]
fn single_member_archive_layout() {
    let mut w = Writer::new();
    w.reserve_file(member(b"a.o", 0o644, 0, b"DEAD", &[b"foo"]));
    let out = w.flush().unwrap();
    // sizes: p1 = 4 + 4 + 4 = 12, p2 = 8 + 4 + 2 + 4 = 18, no string table
    // preamble = 8 + 60 + 12 + 60 + 18 = 158; total = 158 + 60 + 4 = 222
    assert_eq!(out.len(), 222);
    assert_eq!(&out[0..8], b"!<arch>\n");
    // symbol index: one entry, offset of the only member, name foo
    assert_eq!(&out[68..72], &[0, 0, 0, 1]);
    assert_eq!(&out[72..76], &[0, 0, 0, 158]);
    assert_eq!(&out[76..80], b"foo\0");
    // member index: one member at 158, one symbol mapped to member 1
    assert_eq!(&out[140..144], &[1, 0, 0, 0]);
    assert_eq!(&out[144..148], &[158, 0, 0, 0]);
    assert_eq!(&out[148..152], &[1, 0, 0, 0]);
    assert_eq!(&out[152..154], &[1, 0]);
    assert_eq!(&out[154..158], b"foo\0");
    // the real member's header and payload
    assert_eq!(&out[158..161], b"a.o");
    assert_eq!(out[161], b' ');
    assert_eq!(&out[158 + 40..158 + 48], b"644     ");
    assert_eq!(&out[158 + 48..158 + 58], b"4         ");
    assert_eq!(&out[158 + 58..158 + 60], &[0x60, 0x0a]);
    assert_eq!(&out[218..222], b"DEAD");
}

#[test]
fn odd_payload_is_padded_to_even() {
    let mut w = Writer::new();
    w.reserve_file(member(b"x.o", 0o644, 0, b"abc", &[]));
    let out = w.flush().unwrap();
    // p1 = 4, p2 = 8 + 4 + 0 + 0 = 12; preamble = 8 + 60 + 4 + 60 + 12 = 144
    // member record = 60 + 3 + 1 pad
    assert_eq!(out.len(), 144 + 64);
    assert_eq!(&out[204..207], b"abc");
    assert_eq!(out[207], 0x0a);
}

#[test]
fn identical_long_names_intern_to_one_copy() {
    let name20: &[u8] = b"abcdefghijklmnop.obj";
    assert_eq!(name20.len(), 20);
    let mut w = Writer::new();
    w.reserve_file(member(name20, 0o644, 0, b"AB", &[]));
    w.reserve_file(member(name20, 0o644, 0, b"CD", &[]));
    let out = w.flush().unwrap();
    // p1 = 4, p2 = 8 + 8 = 16, strtab = 20 + 2 = 22
    // preamble = 8 + 60 + 4 + 60 + 16 + 60 + 22 = 230
    assert_eq!(out.len(), 230 + 62 + 62);
    // the long-name member: name "//", one stored copy of the name
    assert_eq!(&out[148..150], b"//");
    assert_eq!(&out[148 + 48..148 + 58], b"22        ");
    assert_eq!(&out[208..228], name20);
    assert_eq!(&out[228..230], b"/\n");
    // both member headers reference the same offset 0
    assert_eq!(&out[230..232], b"/0");
    assert_eq!(out[232], b' ');
    assert_eq!(&out[292..294], b"/0");
    assert_eq!(out[294], b' ');
    assert_eq!(&out[290..292], b"AB");
    assert_eq!(&out[352..354], b"CD");
}

#[test]
fn distinct_long_names_get_increasing_offsets() {
    let name_a: &[u8] = b"abcdefghijklmnop.obj"; // 20 bytes, interned at 0
    let name_b: &[u8] = b"qrstuvwxyz012345.obj"; // 20 bytes, interned at 22
    let mut w = Writer::new();
    w.reserve_file(member(name_a, 0o644, 0, b"AB", &[]));
    w.reserve_file(member(name_b, 0o644, 0, b"CD", &[]));
    let out = w.flush().unwrap();
    // strtab = 2 * 22 = 44; preamble = 8 + 60 + 4 + 60 + 16 + 60 + 44 = 252
    assert_eq!(&out[252..255], b"/0 ");
    assert_eq!(&out[314..317], b"/22");
    assert_eq!(out[317], b' ');
}

#[test]
fn duplicate_symbol_recorded_once_and_resolved_to_first_member() {
    let mut w = Writer::new();
    w.reserve_file(member(b"a.o", 0o644, 0, b"AA", &[b"dup"]));
    w.reserve_file(member(b"b.o", 0o644, 0, b"BB", &[b"dup"]));
    let out = w.flush().unwrap();
    {
        let dups = w.duplicate_symbols();
        assert_eq!(dups.len(), 1);
        assert_eq!(dups[0], b"dup".to_vec());
    }
    // one symbol entry only; p1 = 4 + 4 + 4 = 12, p2 = 8 + 8 + 2 + 4 = 22
    // preamble = 8 + 60 + 12 + 60 + 22 = 162; first member at 162
    assert_eq!(&out[68..72], &[0, 0, 0, 1]);
    assert_eq!(&out[72..76], &[0, 0, 0, 162]);
    assert_eq!(&out[76..80], b"dup\0");
    // member index maps the symbol to member 1 (1-based), the first reserved
    assert_eq!(&out[156..158], &[1, 0]);
    assert_eq!(&out[158..162], b"dup\0");
}

#[test]
fn symbol_index_names_are_sorted() {
    let mut w = Writer::new();
    w.reserve_file(member(b"a.o", 0o644, 0, b"AA", &[b"zeta", b"alpha"]));
    w.reserve_file(member(b"b.o", 0o644, 0, b"BB", &[b"mid"]));
    let out = w.flush().unwrap();
    // p1 = 4 + 12 + (5 + 6 + 4) = 31; names start at 68 + 4 + 12 = 84
    assert_eq!(&out[84..99], b"alpha\0mid\0zeta\0");
    // member index keeps discovery order
    // p2 = 8 + 8 + 6 + 15 = 37; preamble = 8 + 60 + 32 + 60 + 38 = 198
    // p2 payload at 8 + 60 + 32 + 60 = 160; names at 160 + 4 + 8 + 4 + 6 = 182
    assert_eq!(&out[182..197], b"zeta\0alpha\0mid\0");
    // discovery-order indices: zeta -> member 1, alpha -> member 1, mid -> 2
    assert_eq!(&out[176..182], &[1, 0, 1, 0, 2, 0]);
}

#[test]
fn header_size_field_is_exact_decimal_of_payload_length() {
    let mut w = Writer::new();
    let payload = vec![7u8; 12345];
    w.reserve_file(member(b"big.o", 0o644, 0, &payload, &[]));
    let out = w.flush().unwrap();
    // preamble = 8 + 60 + 4 + 60 + 12 = 144
    let size_field = &out[144 + 48..144 + 58];
    assert_eq!(size_field, b"12345     ");
    assert_eq!(out.len(), 144 + 60 + 12345 + 1);
}

#[test]
fn timestamp_and_mode_are_rendered() {
    let mut w = Writer::new();
    w.reserve_file(member(b"t.o", 0o755, 1234567890, b"XY", &[]));
    let out = w.flush().unwrap();
    // preamble = 8 + 60 + 4 + 60 + 12 = 144
    assert_eq!(&out[144 + 16..144 + 28], b"1234567890  ");
    assert_eq!(&out[144 + 40..144 + 48], b"755     ");
}

#[test]
fn mode_overflow_aborts_flush() {
    let mut w = Writer::new();
    // u32::MAX renders to eleven octal digits, over the eight-wide field
    w.reserve_file(member(b"m.o", u32::MAX, 0, b"AB", &[]));
    assert_eq!(w.flush().unwrap_err(), ArchiveError::FieldOverflow);
}

#[test]
fn timestamp_overflow_aborts_flush() {
    let mut w = Writer::new();
    // thirteen decimal digits, over the twelve-wide date field
    w.reserve_file(member(b"t.o", 0o644, 10_000_000_000_000, b"AB", &[]));
    assert_eq!(w.flush().unwrap_err(), ArchiveError::FieldOverflow);
}

#[test]
fn sixteen_byte_name_stays_inline() {
    let name16: &[u8] = b"exactly16bytes.o";
    assert_eq!(name16.len(), 16);
    let mut w = Writer::new();
    w.reserve_file(member(name16, 0o644, 0, b"AB", &[]));
    let out = w.flush().unwrap();
    // no string table member: preamble = 8 + 60 + 4 + 60 + 12 = 144
    assert_eq!(out.len(), 144 + 62);
    assert_eq!(&out[144..160], name16);
}

#[test]
fn seventeen_byte_name_goes_to_the_table() {
    let name17: &[u8] = b"seventeen17chars!";
    assert_eq!(name17.len(), 17);
    let mut w = Writer::new();
    w.reserve_file(member(name17, 0o644, 0, b"AB", &[]));
    let out = w.flush().unwrap();
    // strtab = 17 + 2 = 19, padded to 20
    // preamble = 8 + 60 + 4 + 60 + 12 + 60 + 20 = 224
    assert_eq!(out.len(), 224 + 62);
    assert_eq!(&out[204..221], name17);
    assert_eq!(&out[221..223], b"/\n");
    assert_eq!(out[223], 0x0a); // table payload pad byte
    assert_eq!(&out[224..226], b"/0");
}
