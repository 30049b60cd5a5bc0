//! The bind opcode interpreter: a table of
//! <seg-index, seg-offset, type, symbol-library-ordinal, symbol-name, addend>
//! rows, replayed opcode by opcode, each bind row becoming an `Import`.

use vstd::prelude::*;
use crate::bind_opcodes::{
    BIND_IMMEDIATE_MASK, BIND_OPCODE_ADD_ADDR_ULEB, BIND_OPCODE_DONE, BIND_OPCODE_DO_BIND,
    BIND_OPCODE_DO_BIND_ADD_ADDR_IMM_SCALED, BIND_OPCODE_DO_BIND_ADD_ADDR_ULEB,
    BIND_OPCODE_DO_BIND_ULEB_TIMES_SKIPPING_ULEB, BIND_OPCODE_MASK, BIND_OPCODE_SET_ADDEND_SLEB,
    BIND_OPCODE_SET_DYLIB_ORDINAL_IMM, BIND_OPCODE_SET_DYLIB_ORDINAL_ULEB,
    BIND_OPCODE_SET_DYLIB_SPECIAL_IMM, BIND_OPCODE_SET_SEGMENT_AND_OFFSET_ULEB,
    BIND_OPCODE_SET_SYMBOL_TRAILING_FLAGS_IMM, BIND_OPCODE_SET_TYPE_IMM, BIND_TYPE_POINTER,
};
use crate::error::BindError;
use crate::model::{
    advance, apply, decode_op, emitted, fresh_state, import_views, interp, lemma_interp_bad_read, lemma_interp_end, lemma_interp_fail, lemma_interp_step, lemma_leb_progress, lemma_prepend_prepend,
    lemma_wrap_add_wrap, lemma_wrap_mul_wrap, lemma_wrapping_add, lib_names, materialize, next_pos,
    prepend, seg_offsets, wrap, BindState, ImportView,
};
use vstd::slice::slice_subrange;
use crate::reader::{read_cstr, read_sleb, read_uleb};

verus! {

/// A segment of the object, as far as binding needs it.
#[derive(Debug, Clone, Copy)]
pub struct Segment {
    pub fileoff: u64,
}

/// Pointer width of the target.
#[derive(Debug, Clone, Copy, PartialEq, Eq)]
pub enum Container {
    Little,
    Big,
}

/// What the interpreter needs to know of the target.
#[derive(Debug, Clone, Copy)]
pub struct Ctx {
    pub container: Container,
}

impl Ctx {
    pub open spec fn spec_size(&self) -> nat {
        match self.container {
            Container::Little => 4,
            Container::Big => 8,
        }
    }

    pub fn new(container: Container) -> (r: Ctx)
        ensures
            r.container == container,
    {
        Ctx { container }
    }

    /// Size of a pointer in bytes: 4 for 32-bit targets, 8 for 64-bit ones.
    pub fn size(&self) -> (r: usize)
        ensures
            r as nat == self.spec_size(),
    {
        match self.container {
            Container::Little => 4,
            Container::Big => 8,
        }
    }
}

/// The fields of the dyld info load command that locate the two bind streams.
#[derive(Debug, Clone, Copy)]
pub struct DyldInfoCommand {
    pub bind_off: u32,
    pub bind_size: u32,
    pub lazy_bind_off: u32,
    pub lazy_bind_size: u32,
}

/// The binding being assembled while a stream is replayed.
#[derive(Debug, Clone, Copy)]
pub struct BindInformation<'a> {
    pub seg_index: u8,
    pub seg_offset: u64,
    pub bind_type: u8,
    pub symbol_library_ordinal: u8,
    pub symbol_name: &'a str,
    pub symbol_flags: u8,
    pub addend: i64,
    /// The last SET_DYLIB_SPECIAL_IMM immediate. It is kept apart from the
    /// library ordinal, which alone picks the library of an import.
    pub special_dylib: u8,
}

impl<'a> View for BindInformation<'a> {
    type V = BindState;

    open spec fn view(&self) -> BindState {
        BindState {
            seg_index: self.seg_index,
            seg_offset: self.seg_offset,
            bind_type: self.bind_type,
            ordinal: self.symbol_library_ordinal,
            name: self.symbol_name@,
            flags: self.symbol_flags,
            addend: self.addend,
            special_dylib: self.special_dylib,
        }
    }
}

impl<'a> Default for BindInformation<'a> {
    fn default() -> (r: Self)
        ensures
            r@ == fresh_state(false),
    {
        let r = BindInformation {
            seg_index: 0,
            seg_offset: 0x0,
            bind_type: 0x0,
            special_dylib: 1,
            symbol_library_ordinal: 0,
            symbol_name: "",
            symbol_flags: 0,
            addend: 0,
        };
        proof {
            reveal_strlit("");
            assert(r.symbol_name@ =~= Seq::<char>::empty());
        }
        assert(r@ =~= fresh_state(false));
        r
    }
}

impl<'a> BindInformation<'a> {
    /// A fresh binding for a stream: lazy streams bind pointers unless told
    /// otherwise, regular ones start with no bind type.
    pub fn new(is_lazy: bool) -> (r: Self)
        ensures
            r@ == fresh_state(is_lazy),
    {
        let mut bind_info = BindInformation::default();
        let bind_type = if is_lazy {
            BIND_TYPE_POINTER
        } else {
            0x0
        };
        bind_info.bind_type = bind_type;
        bind_info
    }

    pub fn is_lazy(&self) -> (r: bool)
        ensures
            r == self@.is_lazy(),
    {
        self.bind_type == BIND_TYPE_POINTER
    }
}

/// A symbol the object imports: where in the file its address is written, and
/// which library provides it.
#[derive(Debug, Clone, Copy)]
pub struct Import<'a> {
    pub name: &'a str,
    pub dylib: &'a str,
    pub is_lazy: bool,
    pub offset: u64,
    pub size: usize,
}

impl<'a> View for Import<'a> {
    type V = ImportView;

    open spec fn view(&self) -> ImportView {
        ImportView {
            name: self.name@,
            dylib: self.dylib@,
            is_lazy: self.is_lazy,
            offset: self.offset,
            size: self.size as nat,
        }
    }
}

impl<'a> Import<'a> {
    /// Builds the import for the binding `bi`. Its offset is the file offset of
    /// the binding's segment plus the offset within that segment (modulo 2^64);
    /// a lazy binding fills a pointer-sized slot, a regular one has size 0.
    /// Fails when the segment index or the library ordinal is outside its table.
    /// The ordinal indexes `libs` as it is; the special ordinals of
    /// SET_DYLIB_SPECIAL_IMM are kept in `special_dylib` and pick no library.
    pub fn new(bi: &BindInformation<'a>, libs: &[&'a str], segments: &[Segment], ctx: &Ctx) -> (r:
        Result<Import<'a>, BindError>)
        ensures
            match materialize(bi@, lib_names(libs@), seg_offsets(segments@), ctx.spec_size()) {
                Ok(v) => r matches Ok(x) && x@ == v,
                Err(e) => r == Err::<Import<'a>, BindError>(e),
            },
    {
        if bi.seg_index as usize >= segments.len() {
            return Err(BindError::SegmentIndex);
        }
        if bi.symbol_library_ordinal as usize >= libs.len() {
            return Err(BindError::LibraryOrdinal);
        }
        let segment = &segments[bi.seg_index as usize];
        let offset = segment.fileoff.wrapping_add(bi.seg_offset);
        let is_lazy = bi.is_lazy();
        let size = if is_lazy {
            ctx.size()
        } else {
            0
        };
        let r = Import {
            name: bi.symbol_name,
            dylib: libs[bi.symbol_library_ordinal as usize],
            is_lazy,
            offset,
            size,
        };
        proof {
            lemma_wrapping_add(segment.fileoff, bi.seg_offset);
        }
        assert(r@ =~= materialize(bi@, lib_names(libs@), seg_offsets(segments@), ctx.spec_size())->Ok_0);
        Ok(r)
    }
}

/// Carries out the opcode `opcode`, read at `*offset - 1`: reads its operands,
/// moving `*offset` past them, and updates the binding. Tells whether the
/// opcode is a bind, which then emits the updated binding.
fn decode_step<'a>(
    data: &'a [u8],
    offset: &mut usize,
    opcode: u8,
    is_lazy: bool,
    ctx: &Ctx,
    bind_info: &mut BindInformation<'a>,
) -> (r: Result<bool, BindError>)
    requires
        0 < *old(offset) <= data@.len(),
        data@[*old(offset) - 1] == opcode,
    ensures
        match decode_op(data@, *old(offset) - 1) {
            None => r matches Err(e) && e == BindError::BadRead,
            Some((op, extra)) => r matches Ok(b) && b == op.is_bind() && *final(offset) == *old(
                offset,
            ) + extra && final(bind_info)@ == advance(old(bind_info)@, op, is_lazy, ctx.spec_size()),
        },
{
    let ghost p = *offset as int;
    proof {
        lemma_leb_progress(data@, p);
        reveal(decode_op);
    }
    let op = opcode & BIND_OPCODE_MASK;
    let imm = opcode & BIND_IMMEDIATE_MASK;
    if op == BIND_OPCODE_DONE {
        *bind_info = BindInformation::new(is_lazy);
    } else if op == BIND_OPCODE_SET_DYLIB_ORDINAL_IMM {
        bind_info.symbol_library_ordinal = imm;
    } else if op == BIND_OPCODE_SET_DYLIB_ORDINAL_ULEB {
        let symbol_library_ordinal = match read_uleb(data, offset) {
            Ok(v) => v,
            Err(_) => return Err(BindError::BadRead),
        };
        bind_info.symbol_library_ordinal = #[verifier::truncate] (symbol_library_ordinal as u8);
    } else if op == BIND_OPCODE_SET_DYLIB_SPECIAL_IMM {
        bind_info.special_dylib = imm;
    } else if op == BIND_OPCODE_SET_SYMBOL_TRAILING_FLAGS_IMM {
        let symbol_name = match read_cstr(data, offset) {
            Ok(s) => s,
            Err(_) => return Err(BindError::BadRead),
        };
        if *offset > data.len() {
            // The name ran to the end of the stream without its terminator.
            return Err(BindError::BadRead);
        }
        bind_info.symbol_name = symbol_name;
        bind_info.symbol_flags = imm;
    } else if op == BIND_OPCODE_SET_TYPE_IMM {
        bind_info.bind_type = imm;
    } else if op == BIND_OPCODE_SET_ADDEND_SLEB {
        let addend = match read_sleb(data, offset) {
            Ok(v) => v,
            Err(_) => return Err(BindError::BadRead),
        };
        bind_info.addend = addend;
    } else if op == BIND_OPCODE_SET_SEGMENT_AND_OFFSET_ULEB {
        let seg_offset = match read_uleb(data, offset) {
            Ok(v) => v,
            Err(_) => return Err(BindError::BadRead),
        };
        bind_info.seg_index = imm;
        bind_info.seg_offset = seg_offset;
    } else if op == BIND_OPCODE_ADD_ADDR_ULEB {
        let addr = match read_uleb(data, offset) {
            Ok(v) => v,
            Err(_) => return Err(BindError::BadRead),
        };
        proof {
            lemma_wrapping_add(bind_info.seg_offset, addr);
        }
        bind_info.seg_offset = bind_info.seg_offset.wrapping_add(addr);
    } else if op == BIND_OPCODE_DO_BIND {
        let size = ctx.size() as u64;
        proof {
            lemma_wrapping_add(bind_info.seg_offset, size);
        }
        bind_info.seg_offset = bind_info.seg_offset.wrapping_add(size);
        return Ok(true);
    } else if op == BIND_OPCODE_DO_BIND_ADD_ADDR_ULEB {
        let addr = match read_uleb(data, offset) {
            Ok(v) => v,
            Err(_) => return Err(BindError::BadRead),
        };
        let size = ctx.size() as u64;
        let o1 = bind_info.seg_offset.wrapping_add(addr);
        proof {
            lemma_wrapping_add(bind_info.seg_offset, addr);
            lemma_wrapping_add(o1, size);
            lemma_wrap_add_wrap(bind_info.seg_offset + addr, size as int);
        }
        bind_info.seg_offset = o1.wrapping_add(size);
        return Ok(true);
    } else if op == BIND_OPCODE_DO_BIND_ADD_ADDR_IMM_SCALED {
        let size = ctx.size() as u64;
        let o1 = bind_info.seg_offset.wrapping_add(imm as u64 * size);
        proof {
            lemma_wrapping_add(bind_info.seg_offset, (imm as u64 * size) as u64);
            lemma_wrapping_add(o1, size);
            lemma_wrap_add_wrap(bind_info.seg_offset + imm * size, size as int);
        }
        bind_info.seg_offset = o1.wrapping_add(size);
        return Ok(true);
    } else if op == BIND_OPCODE_DO_BIND_ULEB_TIMES_SKIPPING_ULEB {
        let count = match read_uleb(data, offset) {
            Ok(v) => v,
            Err(_) => return Err(BindError::BadRead),
        };
        let ghost n = *offset as int;
        proof {
            lemma_leb_progress(data@, n);
        }
        let skip = match read_uleb(data, offset) {
            Ok(v) => v,
            Err(_) => return Err(BindError::BadRead),
        };
        let size = ctx.size() as u64;
        // Advancing `count` times by `skip + size`, modulo 2^64.
        let step = skip.wrapping_add(size);
        let total = count.wrapping_mul(step);
        proof {
            lemma_wrapping_add(skip, size);
            assert(total == wrap(count * step));
            lemma_wrap_mul_wrap(count as int, skip + size);
            lemma_wrapping_add(bind_info.seg_offset, total);
            lemma_wrap_add_wrap(count * (skip + size), bind_info.seg_offset as int);
            assert(count * (skip + size) == count * (skip + ctx.spec_size()));
        }
        bind_info.seg_offset = bind_info.seg_offset.wrapping_add(total);
        return Ok(true);
    }
    Ok(false)
}

/// A byte range of the buffer: `start` up to, not including, `end`.
#[derive(Debug, Clone, Copy)]
pub struct Location {
    pub start: usize,
    pub end: u64,
}

/// An interpreter for mach BIND opcodes.
/// Runs on prebound (non lazy) symbols (usually dylib extern consts and extern variables),
/// and lazy symbols (usually dylib functions)
#[derive(Debug)]
pub struct BindInterpreter<'a> {
    pub data: &'a [u8],
    pub location: Location,
    pub lazy_location: Location,
}

impl<'a> BindInterpreter<'a> {
    /// The range of the stream that a pass of the given kind replays.
    pub open spec fn range_of(&self, is_lazy: bool) -> Location {
        if is_lazy {
            self.lazy_location
        } else {
            self.location
        }
    }

    /// The bytes that a pass may read: the buffer, cut at the end of the
    /// stream where that end lies inside it.
    pub open spec fn readable(&self, is_lazy: bool) -> Seq<u8> {
        let end = self.range_of(is_lazy).end;
        if end <= self.data@.len() {
            self.data@.subrange(0, end as int)
        } else {
            self.data@
        }
    }

    /// The imports that one pass emits, or the error it stops on.
    pub open spec fn pass(
        &self,
        is_lazy: bool,
        libs: Seq<Seq<char>>,
        segs: Seq<u64>,
        ptr: nat,
    ) -> Result<Seq<ImportView>, BindError> {
        let loc = self.range_of(is_lazy);
        interp(
            self.readable(is_lazy),
            loc.start as int,
            loc.end as int,
            fresh_state(is_lazy),
            is_lazy,
            libs,
            segs,
            ptr,
        )
    }

    /// The imports of both passes, regular first, or the first error.
    pub open spec fn all_imports(&self, libs: Seq<Seq<char>>, segs: Seq<u64>, ptr: nat) -> Result<
        Seq<ImportView>,
        BindError,
    > {
        match self.pass(false, libs, segs, ptr) {
            Err(e) => Err(e),
            Ok(a) => prepend(a, self.pass(true, libs, segs, ptr)),
        }
    }

    /// An interpreter over `bytes`, with the regular and the lazy bind streams
    /// where the dyld info command puts them.
    pub fn new(bytes: &'a [u8], command: &DyldInfoCommand) -> (r: BindInterpreter<'a>)
        ensures
            r.data@ == bytes@,
            r.location.start == command.bind_off,
            r.location.end == command.bind_off + command.bind_size,
            r.lazy_location.start == command.lazy_bind_off,
            r.lazy_location.end == command.lazy_bind_off + command.lazy_bind_size,
    {
        let location = Location {
            start: command.bind_off as usize,
            end: command.bind_off as u64 + command.bind_size as u64,
        };
        let lazy_location = Location {
            start: command.lazy_bind_off as usize,
            end: command.lazy_bind_off as u64 + command.lazy_bind_size as u64,
        };
        BindInterpreter { data: bytes, location, lazy_location }
    }

    /// Replays the regular stream and then the lazy one, and returns every
    /// import in the order emitted, or the first error.
    pub fn imports(&self, libs: &[&'a str], segments: &[Segment], ctx: &Ctx) -> (r: Result<
        Vec<Import<'a>>,
        BindError,
    >)
        ensures
            match self.all_imports(lib_names(libs@), seg_offsets(segments@), ctx.spec_size()) {
                Ok(v) => r matches Ok(x) && import_views(x@) == v,
                Err(e) => r matches Err(x) && x == e,
            },
    {
        let mut imports = Vec::new();
        proof {
            assert(import_views(imports@) =~= Seq::<ImportView>::empty());
        }
        self.run(false, libs, segments, ctx, &mut imports)?;
        self.run(true, libs, segments, ctx, &mut imports)?;
        Ok(imports)
    }

    /// Replays one stream and appends the imports it emits to `imports`: the
    /// regular pass replays `location`, the lazy pass `lazy_location`. Each
    /// pass starts from a fresh binding whose bind type follows the stream's
    /// kind. Operands are read within the stream: a LEB128 number or a symbol
    /// name whose last byte or terminator lies past its end, or past the
    /// buffer, fails with `BadRead`. On an error the imports appended so far
    /// stay in `imports`.
    pub fn run(
        &self,
        is_lazy: bool,
        libs: &[&'a str],
        segments: &[Segment],
        ctx: &Ctx,
        imports: &mut Vec<Import<'a>>,
    ) -> (r: Result<(), BindError>)
        ensures
            match self.pass(is_lazy, lib_names(libs@), seg_offsets(segments@), ctx.spec_size()) {
                Ok(v) => r is Ok && import_views(final(imports)@) == import_views(old(imports)@) + v,
                Err(e) => r matches Err(x) && x == e,
            },
            old(imports)@.is_prefix_of(final(imports)@),
    {
        let ghost libsv = lib_names(libs@);
        let ghost segsv = seg_offsets(segments@);
        let ghost ptr = ctx.spec_size();
        let ghost old_views = import_views(imports@);
        let location = if is_lazy {
            self.lazy_location
        } else {
            self.location
        };
        let end = location.end;
        let data: &[u8] = if end <= self.data.len() as u64 {
            slice_subrange(self.data, 0, end as usize)
        } else {
            self.data
        };
        let mut bind_info = BindInformation::new(is_lazy);
        let mut offset: usize = location.start;
        let ghost mut out: Seq<ImportView> = Seq::empty();
        assert(old_views + out =~= old_views);
        while (offset as u64) < end
            invariant
                data@ == self.readable(is_lazy),
                end == self.range_of(is_lazy).end,
                libsv == lib_names(libs@),
                segsv == seg_offsets(segments@),
                ptr == ctx.spec_size(),
                self.pass(is_lazy, libsv, segsv, ptr) == prepend(
                    out,
                    interp(data@, offset as int, end as int, bind_info@, is_lazy, libsv, segsv, ptr),
                ),
                import_views(imports@) == old_views + out,
                old(imports)@.is_prefix_of(imports@),
            decreases if (offset as int) < end { end - offset } else { 0 },
        {
            if offset >= data.len() {
                proof {
                    reveal(decode_op);
                    lemma_interp_bad_read(data@, offset as int, end as int, bind_info@, is_lazy, libsv, segsv, ptr);
                }
                return Err(BindError::BadRead);
            }
            let ghost pos = offset as int;
            let ghost st0 = bind_info@;
            let opcode = data[offset];
            offset = offset + 1;
            let do_bind = match decode_step(data, &mut offset, opcode, is_lazy, ctx, &mut bind_info) {
                Ok(b) => b,
                Err(e) => {
                    proof {
                        lemma_interp_bad_read(data@, pos, end as int, st0, is_lazy, libsv, segsv, ptr);
                    }
                    return Err(e);
                },
            };
            let ghost mut em: Option<ImportView> = None;
            let ghost before = imports@;
            if do_bind {
                match Import::new(&bind_info, libs, segments, ctx) {
                    Ok(i) => {
                        proof {
                            em = Some(i@);
                        }
                        imports.push(i);
                    },
                    Err(e) => {
                        proof {
                            lemma_interp_fail(data@, pos, end as int, st0, is_lazy, libsv, segsv, ptr, e);
                        }
                        return Err(e);
                    },
                }
            }
            proof {
                let (op, extra) = decode_op(data@, pos)->Some_0;
                lemma_interp_step(data@, pos, end as int, st0, is_lazy, libsv, segsv, ptr, bind_info@, em);
                lemma_prepend_prepend(
                    out,
                    emitted(em),
                    interp(data@, offset as int, end as int, bind_info@, is_lazy, libsv, segsv, ptr),
                );
                out = out + emitted(em);
                assert(import_views(imports@) =~= import_views(before) + emitted(em));
                assert(import_views(imports@) =~= old_views + out);
            }
        }
        proof {
            lemma_interp_end(data@, offset as int, end as int, bind_info@, is_lazy, libsv, segsv, ptr);
            assert(out + Seq::<ImportView>::empty() =~= out);
        }
        Ok(())
    }
}

} // verus!
