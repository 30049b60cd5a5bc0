//! Properties of bind stream replay, over the model of `model`.

use vstd::prelude::*;
use crate::bind_opcodes::BIND_OPCODE_MASK;
use crate::error::BindError;
use crate::model::{
    advance, apply, decode_op, exec_ops, fresh_state, emitted, interp, lemma_wrap_add_wrap, materialize, prepend, next_pos, wrap,
    BindOp, BindState, ImportView,
};

verus! {

/// The opcodes of the stream `s` from `pos` up to `end`, or `None` where one
/// of them cannot be decoded.
pub open spec fn decode_all(s: Seq<u8>, pos: int, end: int) -> Option<Seq<BindOp>>
    decreases if pos < end { end - pos } else { 0 },
{
    if pos >= end {
        Some(Seq::empty())
    } else {
        match decode_op(s, pos) {
            None => None,
            Some((op, _)) => match decode_all(s, next_pos(s, pos), end) {
                Some(rest) => Some(seq![op] + rest),
                None => None,
            },
        }
    }
}

/// Number of bind opcodes in `ops`.
pub open spec fn bind_count(ops: Seq<BindOp>) -> nat
    decreases ops.len(),
{
    if ops.len() == 0 {
        0
    } else {
        (if ops[0].is_bind() { 1nat } else { 0nat }) + bind_count(ops.drop_first())
    }
}

/// Replaying a stream whose opcodes all decode is running its opcode list.
pub proof fn lemma_interp_is_exec(
    s: Seq<u8>,
    pos: int,
    end: int,
    st: BindState,
    is_lazy: bool,
    libs: Seq<Seq<char>>,
    segs: Seq<u64>,
    ptr: nat,
)
    requires
        decode_all(s, pos, end) is Some,
    ensures
        interp(s, pos, end, st, is_lazy, libs, segs, ptr) == exec_ops(
            decode_all(s, pos, end)->0,
            st,
            is_lazy,
            libs,
            segs,
            ptr,
        ),
    decreases if pos < end { end - pos } else { 0 },
{
    reveal(interp);
    if pos < end {
        let op = decode_op(s, pos)->Some_0.0;
        let rest = decode_all(s, next_pos(s, pos), end)->0;
        let ops = decode_all(s, pos, end)->0;
        assert(ops[0] == op);
        assert(ops.drop_first() =~= rest);
        if let Ok((st2, _)) = apply(st, op, is_lazy, libs, segs, ptr) {
            lemma_interp_is_exec(s, next_pos(s, pos), end, st2, is_lazy, libs, segs, ptr);
        }
    }
}

/// Running an opcode list emits exactly one import per bind opcode, whatever
/// other opcodes stand around them (a bind that repeats `count` times still
/// emits one).
pub proof fn law_one_import_per_bind(
    ops: Seq<BindOp>,
    st: BindState,
    is_lazy: bool,
    libs: Seq<Seq<char>>,
    segs: Seq<u64>,
    ptr: nat,
)
    ensures
        exec_ops(ops, st, is_lazy, libs, segs, ptr) matches Ok(r) ==> r.len() == bind_count(ops),
    decreases ops.len(),
{
    if ops.len() > 0 {
        if let Ok((st2, _)) = apply(st, ops[0], is_lazy, libs, segs, ptr) {
            law_one_import_per_bind(ops.drop_first(), st2, is_lazy, libs, segs, ptr);
        }
    }
}

/// A stream that replays without error has every opcode decoded, and yields
/// as many imports as it holds bind opcodes.
pub proof fn law_stream_import_count(
    s: Seq<u8>,
    pos: int,
    end: int,
    st: BindState,
    is_lazy: bool,
    libs: Seq<Seq<char>>,
    segs: Seq<u64>,
    ptr: nat,
)
    ensures
        interp(s, pos, end, st, is_lazy, libs, segs, ptr) matches Ok(r) ==> (decode_all(s, pos, end)
            matches Some(ops) && r.len() == bind_count(ops)),
    decreases if pos < end { end - pos } else { 0 },
{
    reveal(interp);
    if pos < end {
        if let Some((op, _)) = decode_op(s, pos) {
            if let Ok((st2, _)) = apply(st, op, is_lazy, libs, segs, ptr) {
                law_stream_import_count(s, next_pos(s, pos), end, st2, is_lazy, libs, segs, ptr);
                if let Some(rest) = decode_all(s, next_pos(s, pos), end) {
                    let ops = seq![op] + rest;
                    assert(ops[0] == op);
                    assert(ops.drop_first() =~= rest);
                }
            }
        }
    }
}

/// DONE puts every field of the binding back to its value at the start of the
/// stream, whatever came before.
pub proof fn law_done_resets(st: BindState, is_lazy: bool, ptr: nat)
    ensures
        advance(st, BindOp::Done, is_lazy, ptr) == fresh_state(is_lazy),
{
}

/// ADD_ADDR_ULEB never fails, and adds to the address modulo 2^64.
pub proof fn law_add_addr_wraps(
    st: BindState,
    v: u64,
    is_lazy: bool,
    libs: Seq<Seq<char>>,
    segs: Seq<u64>,
    ptr: nat,
)
    ensures
        apply(st, BindOp::AddAddr(v), is_lazy, libs, segs, ptr) matches Ok((st2, e)) && e is None
            && st2.seg_offset as int == (st.seg_offset + v) % 0x1_0000_0000_0000_0000,
{
}

/// A byte whose high nibble names no opcode decodes as an unknown opcode that
/// takes just its own byte.
pub proof fn law_unknown_byte_decodes(s: Seq<u8>, pos: int)
    requires
        0 <= pos < s.len(),
        s[pos] >= 0xD0,
    ensures
        decode_op(s, pos) == Some((BindOp::Unknown(s[pos]), 0nat)),
        next_pos(s, pos) == pos + 1,
{
    reveal(decode_op);
    let b = s[pos];
    assert(b >= 0xD0 ==> (b & 0xF0u8) >= 0xD0u8) by (bit_vector);
    assert(BIND_OPCODE_MASK == 0xF0u8);
}

/// An unknown opcode changes nothing: the opcodes around it emit the same
/// imports, or fail the same way, as they do without it.
pub proof fn law_unknown_is_skipped(
    a: Seq<BindOp>,
    b: u8,
    c: Seq<BindOp>,
    st: BindState,
    is_lazy: bool,
    libs: Seq<Seq<char>>,
    segs: Seq<u64>,
    ptr: nat,
)
    ensures
        exec_ops(a + seq![BindOp::Unknown(b)] + c, st, is_lazy, libs, segs, ptr) == exec_ops(
            a + c,
            st,
            is_lazy,
            libs,
            segs,
            ptr,
        ),
    decreases a.len(),
{
    let with = a + seq![BindOp::Unknown(b)] + c;
    if a.len() == 0 {
        assert(with[0] == BindOp::Unknown(b));
        assert(with.drop_first() =~= c);
        assert(a + c =~= c);
        if let Ok(r) = exec_ops(c, st, is_lazy, libs, segs, ptr) {
            assert(Seq::<ImportView>::empty() + r =~= r);
        }
    } else {
        assert(with[0] == a[0]);
        assert((a + c)[0] == a[0]);
        assert(with.drop_first() =~= a.drop_first() + seq![BindOp::Unknown(b)] + c);
        assert((a + c).drop_first() =~= a.drop_first() + c);
        if let Ok((st2, _)) = apply(st, a[0], is_lazy, libs, segs, ptr) {
            law_unknown_is_skipped(a.drop_first(), b, c, st2, is_lazy, libs, segs, ptr);
        }
    }
}

/// A bind whose segment index or library ordinal lies outside its table
/// fails with the matching error, the segment checked first.
pub proof fn law_out_of_range_fails(
    st: BindState,
    op: BindOp,
    is_lazy: bool,
    libs: Seq<Seq<char>>,
    segs: Seq<u64>,
    ptr: nat,
)
    requires
        op.is_bind(),
    ensures
        st.seg_index >= segs.len() ==> apply(st, op, is_lazy, libs, segs, ptr) == Err::<
            (BindState, Option<ImportView>),
            BindError,
        >(BindError::SegmentIndex),
        st.seg_index < segs.len() && st.ordinal >= libs.len() ==> apply(
            st,
            op,
            is_lazy,
            libs,
            segs,
            ptr,
        ) == Err::<(BindState, Option<ImportView>), BindError>(BindError::LibraryOrdinal),
{
}

/// SET_SEGMENT_AND_OFFSET_ULEB(i, a), ADD_ADDR_ULEB(b), DO_BIND never fails
/// on the address: with segment `i` and the library ordinal in their tables
/// it emits one import at the segment's file offset plus `a + b + ptr`, each
/// sum taken modulo 2^64, however far `a + b` runs past 2^64.
pub proof fn law_add_addr_wraps_in_stream(
    st: BindState,
    i: u8,
    a: u64,
    b: u64,
    is_lazy: bool,
    libs: Seq<Seq<char>>,
    segs: Seq<u64>,
    ptr: nat,
)
    requires
        i < segs.len(),
        st.ordinal < libs.len(),
    ensures
        exec_ops(
            seq![BindOp::SetSegmentAndOffset(i, a), BindOp::AddAddr(b), BindOp::DoBind],
            st,
            is_lazy,
            libs,
            segs,
            ptr,
        ) matches Ok(r) && r.len() == 1 && r[0].offset == wrap(segs[i as int] + wrap(a + b + ptr)),
{
    let ops = seq![BindOp::SetSegmentAndOffset(i, a), BindOp::AddAddr(b), BindOp::DoBind];
    let ops1 = seq![BindOp::AddAddr(b), BindOp::DoBind];
    let ops2 = seq![BindOp::DoBind];
    let st1 = advance(st, ops[0], is_lazy, ptr);
    let st2 = advance(st1, ops1[0], is_lazy, ptr);
    let st3 = advance(st2, ops2[0], is_lazy, ptr);
    assert(ops.drop_first() =~= ops1);
    assert(ops1.drop_first() =~= ops2);
    assert(ops2.drop_first() =~= Seq::<BindOp>::empty());
    lemma_wrap_add_wrap(a + b, ptr as int);
    assert(st3.seg_offset == wrap(a + b + ptr));
    let imp = materialize(st3, libs, segs, ptr)->Ok_0;
    lemma_exec_step(Seq::<BindOp>::empty(), st3, is_lazy, libs, segs, ptr);
    lemma_exec_step(ops2, st2, is_lazy, libs, segs, ptr);
    lemma_exec_step(ops1, st1, is_lazy, libs, segs, ptr);
    lemma_exec_step(ops, st, is_lazy, libs, segs, ptr);
    assert(seq![imp] + Seq::<ImportView>::empty() =~= seq![imp]);
    assert(Seq::<ImportView>::empty() + seq![imp] =~= seq![imp]);
}

/// One step of running an opcode list.
pub proof fn lemma_exec_step(
    ops: Seq<BindOp>,
    st: BindState,
    is_lazy: bool,
    libs: Seq<Seq<char>>,
    segs: Seq<u64>,
    ptr: nat,
)
    ensures
        ops.len() == 0 ==> exec_ops(ops, st, is_lazy, libs, segs, ptr) == Ok::<
            Seq<ImportView>,
            BindError,
        >(Seq::empty()),
        ops.len() > 0 ==> exec_ops(ops, st, is_lazy, libs, segs, ptr) == match apply(
            st,
            ops[0],
            is_lazy,
            libs,
            segs,
            ptr,
        ) {
            Err(e) => Err(e),
            Ok((st2, e)) => prepend(emitted(e), exec_ops(ops.drop_first(), st2, is_lazy, libs, segs, ptr)),
        },
{
}

/// The address after `n` steps of `d` from `o`, each step modulo 2^64.
pub open spec fn repeat_add(o: u64, d: int, n: nat) -> u64
    decreases n,
{
    if n == 0 {
        o
    } else {
        wrap(repeat_add(o, d, (n - 1) as nat) + d)
    }
}

/// DO_BIND_ULEB_TIMES_SKIPPING_ULEB moves the address as `count` steps of
/// `skip` plus a pointer would, each step wrapping, and emits one import.
pub proof fn law_skipping_bind_steps(
    st: BindState,
    count: u64,
    skip: u64,
    is_lazy: bool,
    ptr: nat,
)
    ensures
        advance(st, BindOp::DoBindTimesSkipping(count, skip), is_lazy, ptr).seg_offset
            == repeat_add(st.seg_offset, skip + ptr, count as nat),
        BindOp::DoBindTimesSkipping(count, skip).is_bind(),
{
    lemma_repeat_add(st.seg_offset, skip + ptr, count as nat);
}

pub proof fn lemma_repeat_add(o: u64, d: int, n: nat)
    requires
        d >= 0,
    ensures
        repeat_add(o, d, n) == wrap(o + n * d),
    decreases n,
{
    if n == 0 {
        assert(n * d == 0);
        assert(o as int % 0x1_0000_0000_0000_0000 == o as int);
    } else {
        let k = (n - 1) as nat;
        lemma_repeat_add(o, d, k);
        assert(repeat_add(o, d, k) == wrap(o + k * d));
        lemma_wrap_add_wrap(o + k * d, d);
        assert(o + k * d + d == o + n * d) by (nonlinear_arith)
            requires
                k + 1 == n,
        ;
        assert(repeat_add(o, d, n) == wrap(repeat_add(o, d, k) + d));
    }
}

} // verus!
