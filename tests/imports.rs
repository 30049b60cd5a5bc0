use bind_imports::bind_opcodes::BIND_TYPE_POINTER;
use bind_imports::error::BindError;
use bind_imports::imports::{
    BindInformation, BindInterpreter, Container, Ctx, DyldInfoCommand, Import, Segment,
};

fn regular(len: usize) -> DyldInfoCommand {
    DyldInfoCommand { bind_off: 0, bind_size: len as u32, lazy_bind_off: 0, lazy_bind_size: 0 }
}

fn lazy(len: usize) -> DyldInfoCommand {
    DyldInfoCommand { bind_off: 0, bind_size: 0, lazy_bind_off: 0, lazy_bind_size: len as u32 }
}

fn ctx64() -> Ctx {
    Ctx::new(Container::Big)
}

fn decode<'a>(
    bytes: &'a [u8],
    command: &DyldInfoCommand,
    libs: &[&'a str],
    segments: &[Segment],
    ctx: &Ctx,
) -> Result<Vec<Import<'a>>, BindError> {
    let interpreter = BindInterpreter::new(bytes, command);
    interpreter.imports(libs, segments, ctx)
}

const PUTS: [u8; 13] = [
    0x10, // SET_DYLIB_ORDINAL_IMM(0)
    0x40, b'_', b'p', b'u', b't', b's', 0, // SET_SYMBOL_TRAILING_FLAGS_IMM(0, "_puts")
    0x70, 0x50, // SET_SEGMENT_AND_OFFSET_ULEB(0, 0x50)
    0x90, // DO_BIND
    0x00, // DONE
    0x00,
];

#[test]
fn regular_pass_binds_puts() {
    let segments = [Segment { fileoff: 0x1000 }];
    let libs = ["libSystem"];
    let r = decode(&PUTS, &regular(PUTS.len()), &libs, &segments, &ctx64()).unwrap();
    assert_eq!(r.len(), 1);
    assert_eq!(r[0].name, "_puts");
    assert_eq!(r[0].dylib, "libSystem");
    assert!(!r[0].is_lazy);
    assert_eq!(r[0].offset, 0x1000 + 0x50 + 8);
    assert_eq!(r[0].size, 0);
}

#[test]
fn lazy_pass_binds_puts_as_pointer() {
    let segments = [Segment { fileoff: 0x1000 }];
    let libs = ["libSystem"];
    let r = decode(&PUTS, &lazy(PUTS.len()), &libs, &segments, &ctx64()).unwrap();
    assert_eq!(r.len(), 1);
    assert_eq!(r[0].name, "_puts");
    assert_eq!(r[0].dylib, "libSystem");
    assert!(r[0].is_lazy);
    assert_eq!(r[0].offset, 0x1000 + 0x50 + 8);
    assert_eq!(r[0].size, 8);
}

#[test]
fn lazy_slot_is_pointer_sized_on_32_bit() {
    let segments = [Segment { fileoff: 0x1000 }];
    let libs = ["libSystem"];
    let ctx = Ctx::new(Container::Little);
    let r = decode(&PUTS, &lazy(PUTS.len()), &libs, &segments, &ctx).unwrap();
    assert_eq!(r[0].size, 4);
    assert_eq!(r[0].offset, 0x1000 + 0x50 + 4);
}

#[test]
fn regular_results_come_before_lazy_ones() {
    let mut bytes = PUTS.to_vec();
    let lazy_part: [u8; 9] = [0x10, 0x40, b'_', b'x', 0, 0x70, 0x08, 0x90, 0x00];
    bytes.extend_from_slice(&lazy_part);
    let command = DyldInfoCommand {
        bind_off: 0,
        bind_size: PUTS.len() as u32,
        lazy_bind_off: PUTS.len() as u32,
        lazy_bind_size: lazy_part.len() as u32,
    };
    let segments = [Segment { fileoff: 0x1000 }];
    let libs = ["libSystem"];
    let r = decode(&bytes, &command, &libs, &segments, &ctx64()).unwrap();
    assert_eq!(r.len(), 2);
    assert_eq!(r[0].name, "_puts");
    assert!(!r[0].is_lazy);
    assert_eq!(r[1].name, "_x");
    assert!(r[1].is_lazy);
    assert_eq!(r[1].offset, 0x1000 + 0x08 + 8);
}

#[test]
fn done_resets_the_binding() {
    let bytes = [0x71, 0x10, 0x40, b'a', 0, 0x00, 0x72, 0x20, 0x40, b'b', 0, 0x90];
    let segments = [
        Segment { fileoff: 0x100 },
        Segment { fileoff: 0x2000 },
        Segment { fileoff: 0x30000 },
    ];
    let libs = ["libSystem"];
    let r = decode(&bytes, &regular(bytes.len()), &libs, &segments, &ctx64()).unwrap();
    assert_eq!(r.len(), 1);
    assert_eq!(r[0].offset, 0x30000 + 0x20 + 8);
    assert_eq!(r[0].name, "b");
}

#[test]
fn done_forgets_the_symbol_name() {
    let bytes = [0x40, b'a', 0, 0x00, 0x90];
    let segments = [Segment { fileoff: 0 }];
    let libs = ["libSystem"];
    let r = decode(&bytes, &regular(bytes.len()), &libs, &segments, &ctx64()).unwrap();
    assert_eq!(r[0].name, "");
    assert_eq!(r[0].offset, 8);
}

#[test]
fn add_addr_wraps_around() {
    let bytes = [
        0x70, 0xF0, 0xFF, 0xFF, 0xFF, 0xFF, 0xFF, 0xFF, 0xFF, 0xFF, 0x01, // offset 2^64 - 16
        0x80, 0x20, // ADD_ADDR_ULEB(0x20)
        0x90,
    ];
    let segments = [Segment { fileoff: 0x1000 }];
    let libs = ["libSystem"];
    let r = decode(&bytes, &regular(bytes.len()), &libs, &segments, &ctx64()).unwrap();
    assert_eq!(r[0].offset, 0x1000 + 0x10 + 8);
}

#[test]
fn one_import_per_bind_opcode() {
    let bytes = [
        0x40, b's', 0, 0x70, 0x00, // name "s", segment 0 offset 0
        0x90, // DO_BIND: 8
        0xA0, 0x10, // DO_BIND_ADD_ADDR_ULEB(0x10): 0x20
        0x52, // SET_TYPE_IMM(2)
        0xB2, // DO_BIND_ADD_ADDR_IMM_SCALED(2): 0x38
        0xC0, 0x03, 0x08, // DO_BIND_ULEB_TIMES_SKIPPING_ULEB(3, 8): 0x68
        0x00,
    ];
    let segments = [Segment { fileoff: 0 }];
    let libs = ["libSystem"];
    let r = decode(&bytes, &regular(bytes.len()), &libs, &segments, &ctx64()).unwrap();
    assert_eq!(r.len(), 4);
    let offsets: Vec<u64> = r.iter().map(|i| i.offset).collect();
    assert_eq!(offsets, vec![0x8, 0x20, 0x38, 0x68]);
}

#[test]
fn unknown_opcode_is_skipped() {
    let with = [0x40, b's', 0, 0x90, 0xD5, 0x90, 0xF0, 0x90];
    let without = [0x40, b's', 0, 0x90, 0x90, 0x90];
    let segments = [Segment { fileoff: 0x40 }];
    let libs = ["libSystem"];
    let a = decode(&with, &regular(with.len()), &libs, &segments, &ctx64()).unwrap();
    let b = decode(&without, &regular(without.len()), &libs, &segments, &ctx64()).unwrap();
    assert_eq!(a.len(), 3);
    assert_eq!(a.len(), b.len());
    for (x, y) in a.iter().zip(b.iter()) {
        assert_eq!(x.offset, y.offset);
        assert_eq!(x.name, y.name);
    }
}

#[test]
fn library_ordinal_out_of_range_fails() {
    let bytes = [0x11, 0x40, b's', 0, 0x90];
    let segments = [Segment { fileoff: 0 }];
    let libs = ["libSystem"];
    let r = decode(&bytes, &regular(bytes.len()), &libs, &segments, &ctx64());
    assert_eq!(r.err(), Some(BindError::LibraryOrdinal));
}

#[test]
fn segment_index_out_of_range_fails() {
    let bytes = [0x71, 0x00, 0x40, b's', 0, 0x90];
    let segments = [Segment { fileoff: 0 }];
    let libs = ["libSystem"];
    let r = decode(&bytes, &regular(bytes.len()), &libs, &segments, &ctx64());
    assert_eq!(r.err(), Some(BindError::SegmentIndex));
}

#[test]
fn uleb_ordinal_is_read() {
    // SET_DYLIB_ORDINAL_ULEB(0x81 0x00 = 1)
    let bytes = [0x20, 0x81, 0x00, 0x90];
    let segments = [Segment { fileoff: 0 }];
    let libs = ["libSystem", "libc++"];
    let r = decode(&bytes, &regular(bytes.len()), &libs, &segments, &ctx64()).unwrap();
    assert_eq!(r[0].dylib, "libc++");
}

#[test]
fn multi_byte_uleb_offset() {
    // SET_SEGMENT_AND_OFFSET_ULEB(0, 0x80 0x01 = 128)
    let bytes = [0x70, 0x80, 0x01, 0x90];
    let segments = [Segment { fileoff: 0x1000 }];
    let libs = ["libSystem"];
    let r = decode(&bytes, &regular(bytes.len()), &libs, &segments, &ctx64()).unwrap();
    assert_eq!(r[0].offset, 0x1000 + 128 + 8);
}

#[test]
fn sleb_addend_is_skipped_over() {
    // SET_ADDEND_SLEB(0xFF 0x7F = -1), then a bind
    let bytes = [0x60, 0xFF, 0x7F, 0x70, 0x10, 0x90];
    let segments = [Segment { fileoff: 0 }];
    let libs = ["libSystem"];
    let r = decode(&bytes, &regular(bytes.len()), &libs, &segments, &ctx64()).unwrap();
    assert_eq!(r.len(), 1);
    assert_eq!(r[0].offset, 0x10 + 8);
}

#[test]
fn truncated_uleb_fails() {
    let bytes = [0x70, 0x80];
    let segments = [Segment { fileoff: 0 }];
    let libs = ["libSystem"];
    let r = decode(&bytes, &regular(bytes.len()), &libs, &segments, &ctx64());
    assert_eq!(r.err(), Some(BindError::BadRead));
}

#[test]
fn uleb_cut_by_the_stream_end_fails() {
    // The operand continues past the declared end of the stream.
    let bytes = [0x70, 0x80, 0x01, 0x90];
    let segments = [Segment { fileoff: 0 }];
    let libs = ["libSystem"];
    let r = decode(&bytes, &regular(2), &libs, &segments, &ctx64());
    assert_eq!(r.err(), Some(BindError::BadRead));
}

#[test]
fn stream_past_the_buffer_fails() {
    let bytes = [0x90];
    let segments = [Segment { fileoff: 0 }];
    let libs = ["libSystem"];
    let r = decode(&bytes, &regular(4), &libs, &segments, &ctx64());
    assert_eq!(r.err(), Some(BindError::BadRead));
}

#[test]
fn invalid_utf8_name_fails() {
    let bytes = [0x40, 0xFF, 0xFE, 0, 0x90];
    let segments = [Segment { fileoff: 0 }];
    let libs = ["libSystem"];
    let r = decode(&bytes, &regular(bytes.len()), &libs, &segments, &ctx64());
    assert_eq!(r.err(), Some(BindError::BadRead));
}

#[test]
fn empty_streams_give_no_imports() {
    let bytes: [u8; 0] = [];
    let r = decode(&bytes, &regular(0), &[], &[], &ctx64()).unwrap();
    assert!(r.is_empty());
}

#[test]
fn run_appends_to_the_list() {
    let segments = [Segment { fileoff: 0x1000 }];
    let libs = ["libSystem"];
    let interpreter = BindInterpreter::new(&PUTS, &regular(PUTS.len()));
    let mut out = Vec::new();
    interpreter.run(false, &libs, &segments, &ctx64(), &mut out).unwrap();
    interpreter.run(false, &libs, &segments, &ctx64(), &mut out).unwrap();
    assert_eq!(out.len(), 2);
    interpreter.run(true, &libs, &segments, &ctx64(), &mut out).unwrap();
    assert_eq!(out.len(), 2);
}

#[test]
fn bind_information_kinds() {
    assert!(BindInformation::new(true).is_lazy());
    assert!(!BindInformation::new(false).is_lazy());
    let fresh = BindInformation::new(true);
    assert_eq!(fresh.bind_type, BIND_TYPE_POINTER);
    assert_eq!(fresh.seg_offset, 0);
    assert_eq!(fresh.symbol_name, "");
    assert_eq!(fresh.special_dylib, 1);
    let d = BindInformation::default();
    assert_eq!(d.bind_type, 0);
}

#[test]
fn import_new_checks_tables() {
    let mut bi = BindInformation::new(false);
    bi.seg_offset = 0x18;
    bi.symbol_name = "_f";
    let libs = ["libSystem"];
    let segments = [Segment { fileoff: 0x200 }];
    let i = Import::new(&bi, &libs, &segments, &ctx64()).unwrap();
    assert_eq!(i.offset, 0x218);
    assert_eq!(i.name, "_f");
    bi.seg_index = 3;
    assert_eq!(Import::new(&bi, &libs, &segments, &ctx64()).err(), Some(BindError::SegmentIndex));
}

#[test]
fn ctx_sizes() {
    assert_eq!(Ctx::new(Container::Big).size(), 8);
    assert_eq!(Ctx::new(Container::Little).size(), 4);
}

#[test]
fn name_cut_by_the_stream_end_fails() {
    // The terminator of "ab" lies past the declared end of the stream.
    let bytes = [0x40, b'a', b'b', 0, 0x90];
    let segments = [Segment { fileoff: 0 }];
    let libs = ["libSystem"];
    let r = decode(&bytes, &regular(3), &libs, &segments, &ctx64());
    assert_eq!(r.err(), Some(BindError::BadRead));
}

#[test]
fn symbol_opcode_at_the_stream_end_fails() {
    let bytes = [0x40];
    let r = decode(&bytes, &regular(1), &["libSystem"], &[Segment { fileoff: 0 }], &ctx64());
    assert_eq!(r.err(), Some(BindError::BadRead));
}

#[test]
fn name_without_terminator_at_buffer_end_fails() {
    let bytes = [0x40, b'a'];
    let r = decode(&bytes, &lazy(2), &["libSystem"], &[Segment { fileoff: 0 }], &ctx64());
    assert_eq!(r.err(), Some(BindError::BadRead));
}

#[test]
fn ten_byte_sleb_addend_is_read() {
    let bytes = [
        0x60, 0x80, 0x80, 0x80, 0x80, 0x80, 0x80, 0x80, 0x80, 0x80, 0x7F, // addend -2^63
        0x90,
    ];
    let segments = [Segment { fileoff: 0 }];
    let libs = ["libSystem"];
    let r = decode(&bytes, &regular(bytes.len()), &libs, &segments, &ctx64()).unwrap();
    assert_eq!(r.len(), 1);
    assert_eq!(r[0].offset, 8);
}

#[test]
fn overlong_sleb_addend_fails() {
    let bytes = [
        0x60, 0x80, 0x80, 0x80, 0x80, 0x80, 0x80, 0x80, 0x80, 0x80, 0x01, 0x90,
    ];
    let segments = [Segment { fileoff: 0 }];
    let libs = ["libSystem"];
    let r = decode(&bytes, &regular(bytes.len()), &libs, &segments, &ctx64());
    assert_eq!(r.err(), Some(BindError::BadRead));
}

#[test]
fn error_keeps_earlier_imports() {
    let bytes = [0x40, b's', 0, 0x90, 0x11, 0x90];
    let segments = [Segment { fileoff: 0 }];
    let libs = ["libSystem"];
    let interpreter = BindInterpreter::new(&bytes, &regular(bytes.len()));
    let mut out = Vec::new();
    let r = interpreter.run(false, &libs, &segments, &ctx64(), &mut out);
    assert_eq!(r.err(), Some(BindError::LibraryOrdinal));
    assert_eq!(out.len(), 1);
    assert_eq!(out[0].name, "s");
}
