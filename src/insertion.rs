//! Replaying a stream with bytes inserted at an opcode boundary: decoding
//! reads only the bytes of each opcode, so the opcodes after the inserted
//! bytes decode as before, only further on.

use vstd::prelude::*;
use crate::bind_opcodes::{
    BIND_OPCODE_ADD_ADDR_ULEB, BIND_OPCODE_DO_BIND_ADD_ADDR_ULEB,
    BIND_OPCODE_DO_BIND_ULEB_TIMES_SKIPPING_ULEB, BIND_OPCODE_MASK, BIND_OPCODE_SET_ADDEND_SLEB,
    BIND_OPCODE_SET_DYLIB_ORDINAL_ULEB, BIND_OPCODE_SET_SEGMENT_AND_OFFSET_ULEB,
    BIND_OPCODE_SET_SYMBOL_TRAILING_FLAGS_IMM,
};
use crate::laws::law_unknown_byte_decodes;
use crate::model::{
    apply, decode_op, emitted, interp, lemma_interp_bad_read, lemma_interp_end, lemma_interp_fail,
    lemma_interp_step, lemma_leb_last_after, next_pos, operand_len, BindOp, BindState, ImportView,
};
use crate::reader::{cstr_bytes, cstr_len, leb_groups, leb_last, sleb_decode, uleb_decode};

verus! {

/// `s` with the bytes `w` inserted at index `k`.
pub open spec fn insert_bytes(s: Seq<u8>, k: int, w: Seq<u8>) -> Seq<u8> {
    s.subrange(0, k) + w + s.subrange(k, s.len() as int)
}

/// The `m` bytes of `t` from `q` are the `m` bytes of `s` from `p`.
pub open spec fn agree(s: Seq<u8>, p: int, t: Seq<u8>, q: int, m: int) -> bool {
    &&& 0 <= p
    &&& 0 <= q
    &&& 0 <= m
    &&& p + m <= s.len()
    &&& q + m <= t.len()
    &&& forall|j: int| 0 <= j < m ==> #[trigger] t[q + j] == s[p + j]
}

/// The replay of `s` from `pos` comes upon position `k` at the start of an
/// opcode before `end`, every opcode before it decoding.
pub open spec fn boundary(s: Seq<u8>, pos: int, end: int, k: int) -> bool
    decreases if pos < k { k - pos } else { 0 },
{
    pos == k || (pos < k && pos < end && decode_op(s, pos) is Some && boundary(
        s,
        next_pos(s, pos),
        end,
        k,
    ))
}

proof fn lemma_agree_sub(s: Seq<u8>, p: int, t: Seq<u8>, q: int, m: int, d: int, m2: int)
    requires
        agree(s, p, t, q, m),
        0 <= d,
        0 <= m2,
        d + m2 <= m,
    ensures
        agree(s, p + d, t, q + d, m2),
{
    assert forall|j: int| 0 <= j < m2 implies #[trigger] t[(q + d) + j] == s[(p + d) + j] by {
        assert(t[q + (d + j)] == s[p + (d + j)]);
        assert(q + (d + j) == (q + d) + j);
        assert(p + (d + j) == (p + d) + j);
    }
}

proof fn lemma_agree_at(s: Seq<u8>, p: int, t: Seq<u8>, q: int, m: int, j: int)
    requires
        agree(s, p, t, q, m),
        0 <= j < m,
    ensures
        t[q + j] == s[p + j],
{
}

proof fn lemma_leb_last_transfer(s: Seq<u8>, p: int, t: Seq<u8>, q: int, m: int)
    requires
        agree(s, p, t, q, m),
        leb_last(s, p) matches Some(l) && l < p + m,
    ensures
        leb_last(t, q) == Some(q + (leb_last(s, p)->0 - p)),
    decreases m,
{
    lemma_leb_last_after(s, p);
    lemma_agree_at(s, p, t, q, m, 0);
    if s[p] >= 0x80 {
        lemma_leb_last_after(s, p + 1);
        lemma_agree_sub(s, p, t, q, m, 1, m - 1);
        lemma_leb_last_transfer(s, p + 1, t, q + 1, m - 1);
    }
}

proof fn lemma_leb_groups_transfer(s: Seq<u8>, i: int, last: int, t: Seq<u8>, q: int)
    requires
        i <= last + 1,
        agree(s, i, t, q, last - i + 1),
    ensures
        leb_groups(t, q, q + (last - i)) == leb_groups(s, i, last),
    decreases last + 1 - i,
{
    if i <= last {
        lemma_agree_at(s, i, t, q, last - i + 1, 0);
        lemma_agree_sub(s, i, t, q, last - i + 1, 1, last - i);
        lemma_leb_groups_transfer(s, i + 1, last, t, q + 1);
        assert(q + 1 + (last - (i + 1)) == q + (last - i));
    }
}

proof fn lemma_uleb_transfer(s: Seq<u8>, p: int, t: Seq<u8>, q: int, m: int)
    requires
        agree(s, p, t, q, m),
        uleb_decode(s, p) matches Some((_, n)) && n <= p + m,
    ensures
        uleb_decode(s, p) matches Some((v, n)) && uleb_decode(t, q) == Some((v, q + (n - p))),
{
    let l = leb_last(s, p)->0;
    lemma_leb_last_after(s, p);
    lemma_leb_last_transfer(s, p, t, q, m);
    lemma_agree_at(s, p, t, q, m, l - p);
    lemma_agree_sub(s, p, t, q, m, 0, l - p + 1);
    lemma_leb_groups_transfer(s, p, l, t, q);
    assert(q + (l - p) - q == l - p);
}

proof fn lemma_sleb_transfer(s: Seq<u8>, p: int, t: Seq<u8>, q: int, m: int)
    requires
        agree(s, p, t, q, m),
        sleb_decode(s, p) matches Some((_, n)) && n <= p + m,
    ensures
        sleb_decode(s, p) matches Some((v, n)) && sleb_decode(t, q) == Some((v, q + (n - p))),
{
    let l = leb_last(s, p)->0;
    lemma_leb_last_after(s, p);
    lemma_leb_last_transfer(s, p, t, q, m);
    lemma_agree_at(s, p, t, q, m, l - p);
    lemma_agree_sub(s, p, t, q, m, 0, l - p + 1);
    lemma_leb_groups_transfer(s, p, l, t, q);
    lemma_agree_sub(s, p, t, q, m, 0, l - p);
    lemma_leb_groups_transfer(s, p, l - 1, t, q);
    assert(q + (l - p) - q == l - p);
    assert(q + (l - 1 - p) == q + (l - p) - 1);
}

proof fn lemma_cstr_transfer(s: Seq<u8>, p: int, t: Seq<u8>, q: int)
    requires
        p + cstr_len(s, p) < s.len(),
        agree(s, p, t, q, cstr_len(s, p) as int + 1),
    ensures
        cstr_len(t, q) == cstr_len(s, p),
        cstr_bytes(t, q) == cstr_bytes(s, p),
    decreases s.len() - p,
{
    lemma_agree_at(s, p, t, q, cstr_len(s, p) as int + 1, 0);
    if s[p] != 0 {
        lemma_agree_sub(s, p, t, q, cstr_len(s, p) as int + 1, 1, cstr_len(s, p) as int);
        lemma_cstr_transfer(s, p + 1, t, q + 1);
    }
    let n = cstr_len(s, p) as int;
    assert forall|j: int| 0 <= j < n implies #[trigger] cstr_bytes(t, q)[j] == cstr_bytes(s, p)[j] by {
        lemma_agree_at(s, p, t, q, n + 1, j);
    }
    assert(cstr_bytes(t, q) =~= cstr_bytes(s, p));
}

/// The bytes that an opcode and its operands take lie inside the buffer.
pub proof fn lemma_decode_within(s: Seq<u8>, pos: int)
    ensures
        decode_op(s, pos) matches Some((_, e)) ==> 0 <= pos && pos + 1 + e <= s.len(),
{
    reveal(decode_op);
    lemma_leb_last_after(s, pos + 1);
    if let Some((_, n)) = uleb_decode(s, pos + 1) {
        lemma_leb_last_after(s, n);
    }
}

/// An opcode decodes the same wherever its bytes stand.
pub proof fn lemma_decode_transfer(s: Seq<u8>, p: int, t: Seq<u8>, q: int)
    requires
        decode_op(s, p) is Some,
        agree(s, p, t, q, 1 + operand_len(s, p) as int),
    ensures
        decode_op(t, q) == decode_op(s, p),
{
    reveal(decode_op);
    let m: int = 1 + operand_len(s, p) as int;
    lemma_agree_at(s, p, t, q, m, 0);
    lemma_agree_sub(s, p, t, q, m, 1, m - 1);
    let op = s[p] & BIND_OPCODE_MASK;
    if op == BIND_OPCODE_SET_DYLIB_ORDINAL_ULEB || op == BIND_OPCODE_SET_SEGMENT_AND_OFFSET_ULEB
        || op == BIND_OPCODE_ADD_ADDR_ULEB || op == BIND_OPCODE_DO_BIND_ADD_ADDR_ULEB {
        lemma_uleb_transfer(s, p + 1, t, q + 1, m - 1);
    } else if op == BIND_OPCODE_DO_BIND_ULEB_TIMES_SKIPPING_ULEB {
        let n = (uleb_decode(s, p + 1)->Some_0).1;
        lemma_leb_last_after(s, p + 1);
        lemma_leb_last_after(s, n);
        lemma_uleb_transfer(s, p + 1, t, q + 1, m - 1);
        lemma_agree_sub(s, p, t, q, m, n - p, m - (n - p));
        lemma_uleb_transfer(s, n, t, q + (n - p), m - (n - p));
    } else if op == BIND_OPCODE_SET_ADDEND_SLEB {
        lemma_sleb_transfer(s, p + 1, t, q + 1, m - 1);
    } else if op == BIND_OPCODE_SET_SYMBOL_TRAILING_FLAGS_IMM {
        lemma_cstr_transfer(s, p + 1, t, q + 1);
    }
}

proof fn lemma_insert_agree_after(s: Seq<u8>, k: int, w: Seq<u8>, p: int, m: int)
    requires
        0 <= k <= p,
        k <= s.len(),
        0 <= m,
        p + m <= s.len(),
    ensures
        agree(s, p, insert_bytes(s, k, w), p + w.len(), m),
        agree(insert_bytes(s, k, w), p + w.len(), s, p, m),
{
    let t = insert_bytes(s, k, w);
    let d = w.len() as int;
    assert forall|j: int| 0 <= j < m implies #[trigger] t[(p + d) + j] == s[p + j] by {
        assert(t[(p + d) + j] == s.subrange(k, s.len() as int)[(p + d + j) - k - d]);
    }
    assert forall|j: int| 0 <= j < m implies #[trigger] s[p + j] == t[(p + d) + j] by {
        assert(t[(p + d) + j] == s.subrange(k, s.len() as int)[(p + d + j) - k - d]);
    }
}

proof fn lemma_insert_agree_inserted(s: Seq<u8>, k: int, w: Seq<u8>)
    requires
        0 <= k <= s.len(),
    ensures
        agree(w, 0, insert_bytes(s, k, w), k, w.len() as int),
{
    let t = insert_bytes(s, k, w);
    assert forall|j: int| 0 <= j < w.len() implies #[trigger] t[k + j] == w[0 + j] by {
        assert(t[k + j] == (s.subrange(0, k) + w)[k + j]);
    }
}

proof fn lemma_insert_agree_before(s: Seq<u8>, k: int, w: Seq<u8>, p: int, m: int)
    requires
        0 <= p,
        0 <= m,
        p + m <= k <= s.len(),
    ensures
        agree(s, p, insert_bytes(s, k, w), p, m),
{
    let t = insert_bytes(s, k, w);
    assert forall|j: int| 0 <= j < m implies #[trigger] t[p + j] == s[p + j] by {
        assert(t[p + j] == s.subrange(0, k)[p + j]);
    }
}

/// After the inserted bytes the replay goes on as before, further on, where
/// either replay succeeds.
proof fn lemma_interp_after_insert(
    s: Seq<u8>,
    k: int,
    w: Seq<u8>,
    p: int,
    end: int,
    st: BindState,
    is_lazy: bool,
    libs: Seq<Seq<char>>,
    segs: Seq<u64>,
    ptr: nat,
)
    requires
        0 <= k <= p,
        k <= s.len(),
        interp(s, p, end, st, is_lazy, libs, segs, ptr) is Ok || interp(
            insert_bytes(s, k, w),
            p + w.len(),
            end + w.len(),
            st,
            is_lazy,
            libs,
            segs,
            ptr,
        ) is Ok,
    ensures
        interp(insert_bytes(s, k, w), p + w.len(), end + w.len(), st, is_lazy, libs, segs, ptr)
            == interp(s, p, end, st, is_lazy, libs, segs, ptr),
    decreases if p < end { end - p } else { 0 },
{
    let t = insert_bytes(s, k, w);
    let d = w.len() as int;
    if p >= end {
        lemma_interp_end(s, p, end, st, is_lazy, libs, segs, ptr);
        lemma_interp_end(t, p + d, end + d, st, is_lazy, libs, segs, ptr);
    } else {
        if decode_op(s, p) is None {
            if decode_op(t, p + d) is None {
                lemma_interp_bad_read(s, p, end, st, is_lazy, libs, segs, ptr);
                lemma_interp_bad_read(t, p + d, end + d, st, is_lazy, libs, segs, ptr);
                return;
            }
            lemma_decode_within(t, p + d);
            lemma_insert_agree_after(s, k, w, p, 1 + operand_len(t, p + d) as int);
            lemma_decode_transfer(t, p + d, s, p);
        }
        lemma_decode_within(s, p);
        let e: int = operand_len(s, p) as int;
        lemma_insert_agree_after(s, k, w, p, 1 + e);
        lemma_decode_transfer(s, p, t, p + d);
        assert(next_pos(t, p + d) == next_pos(s, p) + d);
        let op = (decode_op(s, p)->Some_0).0;
        match apply(st, op, is_lazy, libs, segs, ptr) {
            Err(x) => {
                lemma_interp_fail(s, p, end, st, is_lazy, libs, segs, ptr, x);
                lemma_interp_fail(t, p + d, end + d, st, is_lazy, libs, segs, ptr, x);
            },
            Ok((st2, em)) => {
                lemma_interp_step(s, p, end, st, is_lazy, libs, segs, ptr, st2, em);
                lemma_interp_step(t, p + d, end + d, st, is_lazy, libs, segs, ptr, st2, em);
                lemma_interp_after_insert(s, k, w, next_pos(s, p), end, st2, is_lazy, libs, segs, ptr);
            },
        }
    }
}

/// An unknown opcode byte inserted at an opcode boundary `k` of a stream
/// that replays without error, the stream's end moved one byte further, is
/// skipped: the replay emits the same imports, none dropped, none repeated.
pub proof fn law_unknown_byte_inserted(
    s: Seq<u8>,
    k: int,
    u: u8,
    pos: int,
    end: int,
    st: BindState,
    is_lazy: bool,
    libs: Seq<Seq<char>>,
    segs: Seq<u64>,
    ptr: nat,
)
    requires
        0 <= pos <= k <= end <= s.len(),
        u >= 0xD0,
        boundary(s, pos, end, k),
        interp(s, pos, end, st, is_lazy, libs, segs, ptr) is Ok,
    ensures
        interp(insert_bytes(s, k, seq![u]), pos, end + 1, st, is_lazy, libs, segs, ptr) == interp(
            s,
            pos,
            end,
            st,
            is_lazy,
            libs,
            segs,
            ptr,
        ),
    decreases k - pos,
{
    let w = seq![u];
    let t = insert_bytes(s, k, w);
    if pos == k {
        lemma_insert_agree_inserted(s, k, w);
        assert(t[k + 0] == w[0int + 0]);
        law_unknown_byte_decodes(t, k);
        lemma_interp_after_insert(s, k, w, k, end, st, is_lazy, libs, segs, ptr);
        lemma_interp_step(t, k, end + 1, st, is_lazy, libs, segs, ptr, st, None);
        let rest = interp(s, k, end, st, is_lazy, libs, segs, ptr)->Ok_0;
        assert(Seq::<ImportView>::empty() + rest =~= rest);
    } else {
        lemma_decode_within(s, pos);
        let e: int = operand_len(s, pos) as int;
        let next = next_pos(s, pos);
        assert(boundary(s, next, end, k) ==> next <= k);
        lemma_insert_agree_before(s, k, w, pos, 1 + e);
        lemma_decode_transfer(s, pos, t, pos);
        let op = (decode_op(s, pos)->Some_0).0;
        match apply(st, op, is_lazy, libs, segs, ptr) {
            Err(x) => {
                lemma_interp_fail(s, pos, end, st, is_lazy, libs, segs, ptr, x);
            },
            Ok((st2, em)) => {
                lemma_interp_step(s, pos, end, st, is_lazy, libs, segs, ptr, st2, em);
                lemma_interp_step(t, pos, end + 1, st, is_lazy, libs, segs, ptr, st2, em);
                law_unknown_byte_inserted(s, k, u, next, end, st2, is_lazy, libs, segs, ptr);
            },
        }
    }
}

/// The number of imports that a successful replay emits does not depend on
/// the state it starts from: decoding ignores the state, and an opcode emits
/// an import exactly when it is a bind.
pub proof fn lemma_count_any_state(
    s: Seq<u8>,
    p: int,
    end: int,
    st1: BindState,
    st2: BindState,
    is_lazy: bool,
    libs: Seq<Seq<char>>,
    segs: Seq<u64>,
    ptr: nat,
)
    requires
        interp(s, p, end, st1, is_lazy, libs, segs, ptr) is Ok,
        interp(s, p, end, st2, is_lazy, libs, segs, ptr) is Ok,
    ensures
        interp(s, p, end, st1, is_lazy, libs, segs, ptr)->Ok_0.len() == interp(
            s,
            p,
            end,
            st2,
            is_lazy,
            libs,
            segs,
            ptr,
        )->Ok_0.len(),
    decreases if p < end { end - p } else { 0 },
{
    if p >= end {
        lemma_interp_end(s, p, end, st1, is_lazy, libs, segs, ptr);
        lemma_interp_end(s, p, end, st2, is_lazy, libs, segs, ptr);
    } else {
        if decode_op(s, p) is None {
            lemma_interp_bad_read(s, p, end, st1, is_lazy, libs, segs, ptr);
        }
        let op = (decode_op(s, p)->Some_0).0;
        if let Err(x) = apply(st1, op, is_lazy, libs, segs, ptr) {
            lemma_interp_fail(s, p, end, st1, is_lazy, libs, segs, ptr, x);
        }
        if let Err(x) = apply(st2, op, is_lazy, libs, segs, ptr) {
            lemma_interp_fail(s, p, end, st2, is_lazy, libs, segs, ptr, x);
        }
        let (a1, e1) = apply(st1, op, is_lazy, libs, segs, ptr)->Ok_0;
        let (a2, e2) = apply(st2, op, is_lazy, libs, segs, ptr)->Ok_0;
        lemma_interp_step(s, p, end, st1, is_lazy, libs, segs, ptr, a1, e1);
        lemma_interp_step(s, p, end, st2, is_lazy, libs, segs, ptr, a2, e2);
        lemma_count_any_state(s, next_pos(s, p), end, a1, a2, is_lazy, libs, segs, ptr);
        assert(emitted(e1).len() == emitted(e2).len());
    }
}

/// Bytes `w` that decode as one opcode other than a bind (a SET_* opcode
/// with its operands), inserted at an opcode boundary `k`, the stream's end
/// moved as far, leave the number of imports unchanged where both replays
/// succeed: that number depends on the bind opcodes alone.
pub proof fn law_set_opcode_inserted(
    s: Seq<u8>,
    k: int,
    w: Seq<u8>,
    pos: int,
    end: int,
    st: BindState,
    is_lazy: bool,
    libs: Seq<Seq<char>>,
    segs: Seq<u64>,
    ptr: nat,
)
    requires
        0 <= pos <= k <= end <= s.len(),
        decode_op(w, 0) matches Some((op, e)) && w.len() == 1 + e && !op.is_bind(),
        boundary(s, pos, end, k),
        interp(s, pos, end, st, is_lazy, libs, segs, ptr) is Ok,
        interp(insert_bytes(s, k, w), pos, end + w.len(), st, is_lazy, libs, segs, ptr) is Ok,
    ensures
        interp(insert_bytes(s, k, w), pos, end + w.len(), st, is_lazy, libs, segs, ptr)->Ok_0.len()
            == interp(s, pos, end, st, is_lazy, libs, segs, ptr)->Ok_0.len(),
    decreases k - pos,
{
    let t = insert_bytes(s, k, w);
    let d = w.len() as int;
    if pos == k {
        lemma_insert_agree_inserted(s, k, w);
        lemma_decode_transfer(w, 0, t, k);
        let op = (decode_op(w, 0)->Some_0).0;
        if let Err(x) = apply(st, op, is_lazy, libs, segs, ptr) {
            lemma_interp_fail(t, k, end + d, st, is_lazy, libs, segs, ptr, x);
        }
        let (st2, em) = apply(st, op, is_lazy, libs, segs, ptr)->Ok_0;
        lemma_interp_step(t, k, end + d, st, is_lazy, libs, segs, ptr, st2, em);
        assert(next_pos(t, k) == k + d);
        let rest = interp(t, k + d, end + d, st2, is_lazy, libs, segs, ptr);
        assert(Seq::<ImportView>::empty() + rest->Ok_0 =~= rest->Ok_0);
        lemma_interp_after_insert(s, k, w, k, end, st2, is_lazy, libs, segs, ptr);
        lemma_count_any_state(s, k, end, st, st2, is_lazy, libs, segs, ptr);
    } else {
        lemma_decode_within(s, pos);
        let e: int = operand_len(s, pos) as int;
        let next = next_pos(s, pos);
        assert(boundary(s, next, end, k) ==> next <= k);
        lemma_insert_agree_before(s, k, w, pos, 1 + e);
        lemma_decode_transfer(s, pos, t, pos);
        let op = (decode_op(s, pos)->Some_0).0;
        if let Err(x) = apply(st, op, is_lazy, libs, segs, ptr) {
            lemma_interp_fail(s, pos, end, st, is_lazy, libs, segs, ptr, x);
        }
        let (st2, em) = apply(st, op, is_lazy, libs, segs, ptr)->Ok_0;
        lemma_interp_step(s, pos, end, st, is_lazy, libs, segs, ptr, st2, em);
        lemma_interp_step(t, pos, end + d, st, is_lazy, libs, segs, ptr, st2, em);
        law_set_opcode_inserted(s, k, w, next, end, st2, is_lazy, libs, segs, ptr);
    }
}

} // verus!
