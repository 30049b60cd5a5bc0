//! The meaning of a bind stream: the opcodes it holds, the binding state they
//! build up, and the imports that come out of it.

use vstd::prelude::*;
use crate::bind_opcodes::{
    BIND_IMMEDIATE_MASK, BIND_OPCODE_ADD_ADDR_ULEB, BIND_OPCODE_DONE, BIND_OPCODE_DO_BIND,
    BIND_OPCODE_DO_BIND_ADD_ADDR_IMM_SCALED, BIND_OPCODE_DO_BIND_ADD_ADDR_ULEB,
    BIND_OPCODE_DO_BIND_ULEB_TIMES_SKIPPING_ULEB, BIND_OPCODE_MASK, BIND_OPCODE_SET_ADDEND_SLEB,
    BIND_OPCODE_SET_DYLIB_ORDINAL_IMM, BIND_OPCODE_SET_DYLIB_ORDINAL_ULEB,
    BIND_OPCODE_SET_DYLIB_SPECIAL_IMM, BIND_OPCODE_SET_SEGMENT_AND_OFFSET_ULEB,
    BIND_OPCODE_SET_SYMBOL_TRAILING_FLAGS_IMM, BIND_OPCODE_SET_TYPE_IMM, BIND_TYPE_POINTER,
};
use crate::error::BindError;
use crate::reader::{cstr_bytes, cstr_len, cstr_text, leb_last, sleb_decode, uleb_decode};

verus! {

/// The 2^64 modulus of address arithmetic.
pub open spec fn wrap(x: int) -> u64 {
    (x % 0x1_0000_0000_0000_0000) as u64
}

/// `u64::wrapping_add` is addition modulo 2^64.
pub proof fn lemma_wrapping_add(a: u64, b: u64)
    ensures
        a.wrapping_add(b) == wrap(a + b),
{
}

/// Reducing an intermediate sum modulo 2^64 does not change the final one.
pub proof fn lemma_wrap_add_wrap(x: int, y: int)
    ensures
        wrap(wrap(x) + y) == wrap(x + y),
        wrap(y + wrap(x)) == wrap(y + x),
{
    let m: int = 0x1_0000_0000_0000_0000;
    vstd::arithmetic::div_mod::lemma_add_mod_noop(x, y, m);
    vstd::arithmetic::div_mod::lemma_add_mod_noop(x % m, y, m);
    vstd::arithmetic::div_mod::lemma_mod_twice(x, m);
    assert(wrap(x) as int == x % m);
    assert(y + wrap(x) == wrap(x) + y);
    assert(y + x == x + y);
}

/// Reducing a factor modulo 2^64 does not change the product's residue.
pub proof fn lemma_wrap_mul_wrap(c: int, y: int)
    ensures
        wrap(c * wrap(y)) == wrap(c * y),
{
    let m: int = 0x1_0000_0000_0000_0000;
    vstd::arithmetic::div_mod::lemma_mul_mod_noop_right(c, y, m);
    assert(wrap(y) as int == y % m);
}

/// The binding under construction, as values.
pub struct BindState {
    pub seg_index: u8,
    pub seg_offset: u64,
    pub bind_type: u8,
    pub ordinal: u8,
    pub name: Seq<char>,
    pub flags: u8,
    pub addend: i64,
    pub special_dylib: u8,
}

impl BindState {
    pub open spec fn is_lazy(self) -> bool {
        self.bind_type == BIND_TYPE_POINTER
    }
}

/// The state a stream starts from, and returns to at each DONE.
pub open spec fn fresh_state(is_lazy: bool) -> BindState {
    BindState {
        seg_index: 0,
        seg_offset: 0,
        bind_type: if is_lazy { BIND_TYPE_POINTER } else { 0 },
        ordinal: 0,
        name: Seq::empty(),
        flags: 0,
        addend: 0,
        special_dylib: 1,
    }
}

/// An import, as values.
pub struct ImportView {
    pub name: Seq<char>,
    pub dylib: Seq<char>,
    pub is_lazy: bool,
    pub offset: u64,
    pub size: nat,
}

/// The names of a library table.
pub open spec fn lib_names(libs: Seq<&str>) -> Seq<Seq<char>> {
    libs.map_values(|l: &str| l@)
}

/// The file offsets of a segment table.
pub open spec fn seg_offsets(segs: Seq<crate::imports::Segment>) -> Seq<u64> {
    segs.map_values(|s: crate::imports::Segment| s.fileoff)
}

/// The import that the binding `st` stands for, given the library names, the
/// segments' file offsets and the pointer size.
pub open spec fn materialize(st: BindState, libs: Seq<Seq<char>>, segs: Seq<u64>, ptr: nat) -> Result<
    ImportView,
    BindError,
> {
    if st.seg_index >= segs.len() {
        Err(BindError::SegmentIndex)
    } else if st.ordinal >= libs.len() {
        Err(BindError::LibraryOrdinal)
    } else {
        Ok(
            ImportView {
                name: st.name,
                dylib: libs[st.ordinal as int],
                is_lazy: st.is_lazy(),
                offset: wrap(segs[st.seg_index as int] + st.seg_offset),
                size: if st.is_lazy() { ptr } else { 0 },
            },
        )
    }
}

/// One decoded opcode with its operands.
pub enum BindOp {
    Done,
    SetDylibOrdinal(u8),
    SetDylibSpecial(u8),
    SetSymbol(u8, Seq<char>),
    SetType(u8),
    SetAddend(i64),
    SetSegmentAndOffset(u8, u64),
    AddAddr(u64),
    DoBind,
    DoBindAddAddr(u64),
    DoBindImmScaled(u8),
    DoBindTimesSkipping(u64, u64),
    Unknown(u8),
}

impl BindOp {
    /// The opcodes that emit an import.
    pub open spec fn is_bind(self) -> bool {
        match self {
            BindOp::DoBind => true,
            BindOp::DoBindAddAddr(_) => true,
            BindOp::DoBindImmScaled(_) => true,
            BindOp::DoBindTimesSkipping(_, _) => true,
            _ => false,
        }
    }
}

/// The opcode at `pos` of `s` and the number of operand bytes that follow
/// it, or `None` where an operand cannot be read.
#[verifier::opaque]
pub open spec fn decode_op(s: Seq<u8>, pos: int) -> Option<(BindOp, nat)> {
    if pos < 0 || pos >= s.len() {
        None
    } else {
        let b = s[pos];
        let op = b & BIND_OPCODE_MASK;
        let imm = b & BIND_IMMEDIATE_MASK;
        let p = pos + 1;
        if op == BIND_OPCODE_DONE {
            Some((BindOp::Done, 0))
        } else if op == BIND_OPCODE_SET_DYLIB_ORDINAL_IMM {
            Some((BindOp::SetDylibOrdinal(imm), 0))
        } else if op == BIND_OPCODE_SET_DYLIB_ORDINAL_ULEB {
            match uleb_decode(s, p) {
                Some((v, n)) => Some((BindOp::SetDylibOrdinal(v as u8), (n - p) as nat)),
                None => None,
            }
        } else if op == BIND_OPCODE_SET_DYLIB_SPECIAL_IMM {
            Some((BindOp::SetDylibSpecial(imm), 0))
        } else if op == BIND_OPCODE_SET_SYMBOL_TRAILING_FLAGS_IMM {
            // The terminator must lie inside the stream.
            if p + cstr_len(s, p) < s.len() {
                match cstr_text(cstr_bytes(s, p)) {
                    Some(t) => Some((BindOp::SetSymbol(imm, t), cstr_len(s, p) + 1)),
                    None => None,
                }
            } else {
                None
            }
        } else if op == BIND_OPCODE_SET_TYPE_IMM {
            Some((BindOp::SetType(imm), 0))
        } else if op == BIND_OPCODE_SET_ADDEND_SLEB {
            match sleb_decode(s, p) {
                Some((v, n)) => Some((BindOp::SetAddend(v), (n - p) as nat)),
                None => None,
            }
        } else if op == BIND_OPCODE_SET_SEGMENT_AND_OFFSET_ULEB {
            match uleb_decode(s, p) {
                Some((v, n)) => Some((BindOp::SetSegmentAndOffset(imm, v), (n - p) as nat)),
                None => None,
            }
        } else if op == BIND_OPCODE_ADD_ADDR_ULEB {
            match uleb_decode(s, p) {
                Some((v, n)) => Some((BindOp::AddAddr(v), (n - p) as nat)),
                None => None,
            }
        } else if op == BIND_OPCODE_DO_BIND {
            Some((BindOp::DoBind, 0))
        } else if op == BIND_OPCODE_DO_BIND_ADD_ADDR_ULEB {
            match uleb_decode(s, p) {
                Some((v, n)) => Some((BindOp::DoBindAddAddr(v), (n - p) as nat)),
                None => None,
            }
        } else if op == BIND_OPCODE_DO_BIND_ADD_ADDR_IMM_SCALED {
            Some((BindOp::DoBindImmScaled(imm), 0))
        } else if op == BIND_OPCODE_DO_BIND_ULEB_TIMES_SKIPPING_ULEB {
            match uleb_decode(s, p) {
                Some((count, n)) => match uleb_decode(s, n) {
                    Some((skip, m)) => Some((BindOp::DoBindTimesSkipping(count, skip), (m - p) as nat)),
                    None => None,
                },
                None => None,
            }
        } else {
            Some((BindOp::Unknown(b), 0))
        }
    }
}

/// Number of operand bytes after the opcode at `pos`.
pub open spec fn operand_len(s: Seq<u8>, pos: int) -> nat {
    match decode_op(s, pos) {
        Some((_, n)) => n,
        None => 0,
    }
}

/// Position of the opcode that follows the one at `pos`.
pub open spec fn next_pos(s: Seq<u8>, pos: int) -> int {
    pos + 1 + operand_len(s, pos)
}

/// The binding state after one opcode. Address arithmetic is modulo 2^64; a
/// bind advances the address before it emits the binding.
pub open spec fn advance(st: BindState, op: BindOp, is_lazy: bool, ptr: nat) -> BindState {
    match op {
        BindOp::Done => fresh_state(is_lazy),
        BindOp::SetDylibOrdinal(o) => BindState { ordinal: o, ..st },
        BindOp::SetDylibSpecial(d) => BindState { special_dylib: d, ..st },
        BindOp::SetSymbol(f, n) => BindState { name: n, flags: f, ..st },
        BindOp::SetType(t) => BindState { bind_type: t, ..st },
        BindOp::SetAddend(a) => BindState { addend: a, ..st },
        BindOp::SetSegmentAndOffset(i, o) => BindState { seg_index: i, seg_offset: o, ..st },
        BindOp::AddAddr(v) => BindState { seg_offset: wrap(st.seg_offset + v), ..st },
        BindOp::DoBind => BindState { seg_offset: wrap(st.seg_offset + ptr), ..st },
        BindOp::DoBindAddAddr(v) => BindState { seg_offset: wrap(st.seg_offset + v + ptr), ..st },
        BindOp::DoBindImmScaled(k) => BindState {
            seg_offset: wrap(st.seg_offset + k * ptr + ptr),
            ..st
        },
        BindOp::DoBindTimesSkipping(count, skip) => BindState {
            seg_offset: wrap(st.seg_offset + count * (skip + ptr)),
            ..st
        },
        BindOp::Unknown(_) => st,
    }
}

/// What one opcode does: the next binding state, and the import it emits if
/// it is a bind.
pub open spec fn apply(
    st: BindState,
    op: BindOp,
    is_lazy: bool,
    libs: Seq<Seq<char>>,
    segs: Seq<u64>,
    ptr: nat,
) -> Result<(BindState, Option<ImportView>), BindError> {
    let st2 = advance(st, op, is_lazy, ptr);
    if op.is_bind() {
        match materialize(st2, libs, segs, ptr) {
            Ok(i) => Ok((st2, Some(i))),
            Err(e) => Err(e),
        }
    } else {
        Ok((st2, None))
    }
}

/// The values of a list of imports.
pub open spec fn import_views(v: Seq<crate::imports::Import>) -> Seq<ImportView> {
    v.map_values(|i: crate::imports::Import| i@)
}

/// The import emitted by one opcode, as a list of zero or one.
pub open spec fn emitted(e: Option<ImportView>) -> Seq<ImportView> {
    match e {
        Some(i) => seq![i],
        None => Seq::empty(),
    }
}

/// `out` followed by the imports of `rest`, or the error of `rest`.
pub open spec fn prepend(out: Seq<ImportView>, rest: Result<Seq<ImportView>, BindError>) -> Result<
    Seq<ImportView>,
    BindError,
> {
    match rest {
        Ok(r) => Ok(out + r),
        Err(e) => Err(e),
    }
}

/// Prepending twice is prepending the concatenation.
pub proof fn lemma_prepend_prepend(
    a: Seq<ImportView>,
    b: Seq<ImportView>,
    rest: Result<Seq<ImportView>, BindError>,
)
    ensures
        prepend(a, prepend(b, rest)) == prepend(a + b, rest),
{
    if let Ok(r) = rest {
        assert(a + (b + r) =~= (a + b) + r);
    }
}

/// Runs a list of opcodes from state `st`: the imports emitted in order, or
/// the first error.
pub open spec fn exec_ops(
    ops: Seq<BindOp>,
    st: BindState,
    is_lazy: bool,
    libs: Seq<Seq<char>>,
    segs: Seq<u64>,
    ptr: nat,
) -> Result<Seq<ImportView>, BindError>
    decreases ops.len(),
{
    if ops.len() == 0 {
        Ok(Seq::empty())
    } else {
        match apply(st, ops[0], is_lazy, libs, segs, ptr) {
            Err(e) => Err(e),
            Ok((st2, e)) => prepend(emitted(e), exec_ops(ops.drop_first(), st2, is_lazy, libs, segs, ptr)),
        }
    }
}

/// Every LEB128 number takes at least one byte.
pub proof fn lemma_leb_progress(s: Seq<u8>, pos: int)
    ensures
        uleb_decode(s, pos) matches Some((_, next)) ==> next > pos,
        sleb_decode(s, pos) matches Some((_, next)) ==> next > pos,
{
    lemma_leb_last_after(s, pos);
}

/// The last byte of a LEB128 number lies at or after its first, and inside
/// the buffer.
pub proof fn lemma_leb_last_after(s: Seq<u8>, i: int)
    ensures
        leb_last(s, i) matches Some(l) ==> i <= l < s.len(),
    decreases s.len() - i,
{
    if 0 <= i < s.len() && s[i] >= 0x80 {
        lemma_leb_last_after(s, i + 1);
    }
}

/// Replays the stream `s` from `pos` up to `end`, decoding and running one
/// opcode at a time: the imports emitted in order, or the first error met,
/// whether in reading an opcode or in building an import.
#[verifier::opaque]
pub open spec fn interp(
    s: Seq<u8>,
    pos: int,
    end: int,
    st: BindState,
    is_lazy: bool,
    libs: Seq<Seq<char>>,
    segs: Seq<u64>,
    ptr: nat,
) -> Result<Seq<ImportView>, BindError>
    decreases if pos < end { end - pos } else { 0 },
{
    if pos >= end {
        Ok(Seq::empty())
    } else {
        match decode_op(s, pos) {
            None => Err(BindError::BadRead),
            Some((op, _)) => match apply(st, op, is_lazy, libs, segs, ptr) {
                Err(e) => Err(e),
                Ok((st2, e)) => prepend(
                    emitted(e),
                    interp(s, next_pos(s, pos), end, st2, is_lazy, libs, segs, ptr),
                ),
            },
        }
    }
}


/// One step of a replay: the opcode at `pos` decodes and applies without
/// error, and the rest of the replay goes on from the state it leaves.
pub proof fn lemma_interp_step(
    s: Seq<u8>,
    pos: int,
    end: int,
    st: BindState,
    is_lazy: bool,
    libs: Seq<Seq<char>>,
    segs: Seq<u64>,
    ptr: nat,
    st2: BindState,
    em: Option<ImportView>,
)
    requires
        pos < end,
        decode_op(s, pos) is Some,
        apply(st, decode_op(s, pos)->Some_0.0, is_lazy, libs, segs, ptr) == Ok::<
            (BindState, Option<ImportView>),
            BindError,
        >((st2, em)),
    ensures
        interp(s, pos, end, st, is_lazy, libs, segs, ptr) == prepend(
            emitted(em),
            interp(s, next_pos(s, pos), end, st2, is_lazy, libs, segs, ptr),
        ),
{
    reveal(interp);
}

/// A replay stops on the first opcode that fails to apply.
pub proof fn lemma_interp_fail(
    s: Seq<u8>,
    pos: int,
    end: int,
    st: BindState,
    is_lazy: bool,
    libs: Seq<Seq<char>>,
    segs: Seq<u64>,
    ptr: nat,
    e: BindError,
)
    requires
        pos < end,
        decode_op(s, pos) is Some,
        apply(st, decode_op(s, pos)->Some_0.0, is_lazy, libs, segs, ptr) == Err::<
            (BindState, Option<ImportView>),
            BindError,
        >(e),
    ensures
        interp(s, pos, end, st, is_lazy, libs, segs, ptr) == Err::<Seq<ImportView>, BindError>(e),
{
    reveal(interp);
}

/// A replay stops with `BadRead` on an opcode that cannot be decoded.
pub proof fn lemma_interp_bad_read(
    s: Seq<u8>,
    pos: int,
    end: int,
    st: BindState,
    is_lazy: bool,
    libs: Seq<Seq<char>>,
    segs: Seq<u64>,
    ptr: nat,
)
    requires
        pos < end,
        decode_op(s, pos) is None,
    ensures
        interp(s, pos, end, st, is_lazy, libs, segs, ptr) == Err::<Seq<ImportView>, BindError>(
            BindError::BadRead,
        ),
{
    reveal(interp);
}

/// A replay that starts at or past its end emits nothing.
pub proof fn lemma_interp_end(
    s: Seq<u8>,
    pos: int,
    end: int,
    st: BindState,
    is_lazy: bool,
    libs: Seq<Seq<char>>,
    segs: Seq<u64>,
    ptr: nat,
)
    requires
        pos >= end,
    ensures
        interp(s, pos, end, st, is_lazy, libs, segs, ptr) == Ok::<Seq<ImportView>, BindError>(
            Seq::empty(),
        ),
{
    reveal(interp);
}

} // verus!
