use vstd::prelude::*;
use crate::codec::be_u32_bytes;
use crate::codec::lemma_be_u32_roundtrip;
use crate::codec::lemma_vu64_roundtrip;
use crate::codec::vu64_bytes;
use crate::format::array_bytes;
use crate::format::array_header;
use crate::format::encode_arcs;
use crate::format::encode_node;
use crate::format::is_target_next;
use crate::format::opt_vu64;
use crate::format::rev_seq;
use crate::format::rev_vu64;
use crate::format::state_bytes;
use crate::format::state_flag;
use crate::format::EncV;
use crate::format::FIXED_ARRAY_NUM_STATE_DEEP;
use crate::error::ReadErr;
use crate::reading::bisect;
use crate::reading::bytes_before;
use crate::reading::find_target;
use crate::reading::read_be_u32_at;
use crate::reading::read_byte_at;
use crate::reading::read_from_follow;
use crate::reading::read_next_state_at;
use crate::reading::read_state_at;
use crate::reading::read_state_fields;
use crate::reading::read_vu64_at;
use crate::reading::scan_arcs;
use crate::reading::Step;
use crate::state::has_flag;
use crate::state::NodeV;
use crate::state::State;
use crate::state::ARCS_AS_FIXED_ARRAY;
use crate::state::BIT_FINAL_STATE;
use crate::state::BIT_LAST_STATE;
use crate::state::BIT_STATE_HAS_FINAL_OUTPUT;
use crate::state::BIT_STATE_HAS_OUPPUT;
use crate::state::BIT_STOP_NODE;
use crate::state::BIT_TAGET_NEXT;

verus! {

/// The encoder has just finished a node (or has written nothing): the count of
/// bytes is the length of the buffer and the address of the node written last.
pub open spec fn aligned(e: EncV) -> bool {
    e.position == e.bytes.len() && e.last_frozen == e.position
}

/// `a` is a prefix of `b`.
pub open spec fn is_prefix(a: Seq<u8>, b: Seq<u8>) -> bool {
    a.len() <= b.len() && b.subrange(0, a.len() as int) == a
}

/// The labels of the arcs rise strictly.
pub open spec fn sorted_labels(states: Seq<State>) -> bool {
    forall|a: int, b: int| 0 <= a < b < states.len() ==> #[trigger] states[a]._in < #[trigger] states[b]._in
}

/// Where arc `k` of a node written from encoder `e` ends: after arc `k` comes arc
/// `k - 1`, and arc 0 is written last.
pub open spec fn arc_end(e: EncV, states: Seq<State>, k: int, fixed: bool) -> u64 {
    encode_arcs(e, states, states.len() - k, fixed).last_frozen
}

/// The arc `k` as it reads back.
pub open spec fn dec_arc(e: EncV, states: Seq<State>, k: int, fixed: bool) -> State {
    let s = states[k];
    State {
        flag: state_flag(s, k == states.len() - 1, arc_end(e, states, k + 1, fixed), fixed),
        _in: s._in,
        out: s.out,
        final_out: s.final_out,
        target: s.target,
        next_state: arc_end(e, states, k + 1, fixed),
        is_final: false,
    }
}

proof fn lemma_bits(f: u8, a: u8, b: u8, c: u8, d: u8, g: u8)
    requires
        a == 0 || a == 2,
        b == 0 || b == 1,
        c == 0 || c == 4 || c == 8,
        d == 0 || d == 16,
        g == 0 || g == 32,
        f == (((a | b) | c) | d) | g,
    ensures
        (f & 1 != 0) == (b == 1),
        (f & 2 != 0) == (a == 2),
        (f & 4 != 0) == (c == 4),
        (f & 8 != 0) == (c == 8),
        (f & 16 != 0) == (d == 16),
        (f & 32 != 0) == (g == 32),
        f & 64 == 0,
{
    assert(
        (f & 1 != 0) == (b == 1) && (f & 2 != 0) == (a == 2) && (f & 4 != 0) == (c == 4) && (f & 8 != 0) == (c == 8)
            && (f & 16 != 0) == (d == 16) && (f & 32 != 0) == (g == 32) && f & 64 == 0) by (bit_vector)
        requires
            a == 0 || a == 2,
            b == 0 || b == 1,
            c == 0 || c == 4 || c == 8,
            d == 0 || d == 16,
            g == 0 || g == 32,
            f == (((a | b) | c) | d) | g,
    ;
}

/// The flag byte records exactly the facts it is made of.
pub proof fn lemma_state_flag(s: State, first: bool, lf: u64, fixed: bool)
    ensures
        ({
            let f = state_flag(s, first, lf, fixed);
            &&& has_flag(f, BIT_FINAL_STATE) == s.is_final
            &&& has_flag(f, BIT_LAST_STATE) == first
            &&& has_flag(f, BIT_TAGET_NEXT) == is_target_next(s, lf, fixed)
            &&& has_flag(f, BIT_STOP_NODE) == (s.target == 0)
            &&& has_flag(f, BIT_STATE_HAS_OUPPUT) == (s.out != 0)
            &&& has_flag(f, BIT_STATE_HAS_FINAL_OUTPUT) == (s.final_out != 0)
            &&& !has_flag(f, ARCS_AS_FIXED_ARRAY)
        }),
{
    reveal(state_flag);
    let a: u8 = if first { 2 } else { 0 };
    let b: u8 = if s.is_final { 1 } else { 0 };
    let c: u8 = if s.target > 0 { if is_target_next(s, lf, fixed) { 4 } else { 0 } } else { 8 };
    let d: u8 = if s.out != 0 { 16 } else { 0 };
    let g: u8 = if s.final_out != 0 { 32 } else { 0 };
    let f = state_flag(s, first, lf, fixed);
    assert(f == (((a | b) | c) | d) | g) by {
        assert(0u8 | 2u8 == 2u8) by (bit_vector);
        assert(forall|x: u8| #[trigger] (x | 0u8) == x) by (bit_vector);
    }
    lemma_bits(f, a, b, c, d, g);
}

/// Writing arcs keeps the encoder aligned, and each arc appends its bytes.
pub proof fn lemma_arcs_shape(e: EncV, states: Seq<State>, r: int, fixed: bool)
    requires
        aligned(e),
        0 <= r <= states.len(),
        encode_arcs(e, states, r, fixed).bytes.len() <= u64::MAX,
    ensures
        aligned(encode_arcs(e, states, r, fixed)),
        encode_arcs(e, states, r, fixed).bytes.len() >= e.bytes.len() + 2 * r,
        is_prefix(e.bytes, encode_arcs(e, states, r, fixed).bytes),
        r > 0 ==> encode_arcs(e, states, r, fixed).bytes == encode_arcs(e, states, r - 1, fixed).bytes
            + state_bytes(states[states.len() - r], r == 1, encode_arcs(e, states, r - 1, fixed).last_frozen, fixed),
    decreases r,
{
    if r > 0 {
        let prev = encode_arcs(e, states, r - 1, fixed);
        let b = state_bytes(states[states.len() - r], r == 1, prev.last_frozen, fixed);
        assert(encode_arcs(e, states, r, fixed).bytes == prev.bytes + b);
        lemma_arcs_shape(e, states, r - 1, fixed);
        assert(is_prefix(e.bytes, prev.bytes + b)) by {
            assert((prev.bytes + b).subrange(0, e.bytes.len() as int) =~= prev.bytes.subrange(0, e.bytes.len() as int));
        }
    } else {
        assert(e.bytes.subrange(0, e.bytes.len() as int) =~= e.bytes);
    }
}

/// Reading back a reversed encoding of `x` that ends just before position `i`.
pub proof fn lemma_read_rev_vu64(data: Seq<u8>, i: int, x: u64)
    requires
        vu64_bytes(x).len() <= i <= data.len(),
        data.subrange(i - vu64_bytes(x).len(), i) == rev_vu64(x),
    ensures
        read_vu64_at(data, i) == Step::Done((x, i - vu64_bytes(x).len())),
{
    reveal(rev_vu64);
    let enc = vu64_bytes(x);
    let n = enc.len() as int;
    lemma_vu64_roundtrip(x, Seq::empty());
    let k = if i < 11 { i } else { 11 };
    let buf = bytes_before(data, i, k);
    let rest = buf.subrange(n, k);
    assert forall|j: int| 0 <= j < n implies buf[j] == enc[j] by {
        assert(data.subrange(i - n, i)[n - 1 - j] == rev_seq(enc)[n - 1 - j]);
    }
    assert(buf =~= enc + rest);
    lemma_vu64_roundtrip(x, rest);
}

/// The bytes of fewer arcs are a prefix of the bytes of more.
pub proof fn lemma_arcs_prefix(e: EncV, states: Seq<State>, r1: int, r2: int, fixed: bool)
    requires
        aligned(e),
        0 <= r1 <= r2 <= states.len(),
        encode_arcs(e, states, r2, fixed).bytes.len() <= u64::MAX,
    ensures
        is_prefix(encode_arcs(e, states, r1, fixed).bytes, encode_arcs(e, states, r2, fixed).bytes),
    decreases r2 - r1,
{
    let a = encode_arcs(e, states, r1, fixed).bytes;
    if r1 == r2 {
        assert(a.subrange(0, a.len() as int) =~= a);
    } else {
        lemma_arcs_shape(e, states, r2, fixed);
        let prev = encode_arcs(e, states, r2 - 1, fixed).bytes;
        lemma_arcs_prefix(e, states, r1, r2 - 1, fixed);
        let b = encode_arcs(e, states, r2, fixed).bytes;
        assert(b.subrange(0, a.len() as int) =~= prev.subrange(0, a.len() as int));
    }
}

/// `data` holds `seg` just before position `i`.
pub open spec fn holds_before(data: Seq<u8>, i: int, seg: Seq<u8>) -> bool {
    seg.len() <= i <= data.len() && data.subrange(i - seg.len(), i) == seg
}

proof fn lemma_holds_split(data: Seq<u8>, i: int, a: Seq<u8>, b: Seq<u8>)
    requires
        holds_before(data, i, a + b),
    ensures
        holds_before(data, i, b),
        holds_before(data, i - b.len(), a),
{
    let w = data.subrange(i - (a + b).len(), i);
    assert(w == a + b);
    assert(data.subrange(i - b.len(), i) =~= w.subrange(a.len() as int, w.len() as int));
    assert(w.subrange(a.len() as int, w.len() as int) =~= b);
    assert(data.subrange(i - b.len() - a.len(), i - b.len()) =~= w.subrange(0, a.len() as int));
    assert(w.subrange(0, a.len() as int) =~= a);
}

/// Reading an optional varint field that ends just before `i`.
proof fn lemma_read_opt(data: Seq<u8>, i: int, c: bool, x: u64)
    requires
        holds_before(data, i, opt_vu64(c, x)),
    ensures
        c ==> read_vu64_at(data, i) == Step::Done((x, i - opt_vu64(c, x).len())),
{
    reveal(opt_vu64);
    if c {
        reveal(rev_vu64);
        lemma_read_rev_vu64(data, i, x);
    }
}

/// The fields of an arc read back from the bytes the encoder wrote for it.
pub proof fn lemma_read_state_bytes(data: Seq<u8>, p0: int, s: State, first: bool, lf: u64, fixed: bool)
    requires
        holds_before(data, p0 + state_bytes(s, first, lf, fixed).len(), state_bytes(s, first, lf, fixed)),
        lf == p0,
        0 <= p0,
        p0 + state_bytes(s, first, lf, fixed).len() <= u64::MAX,
    ensures
        read_state_at(data, p0 + state_bytes(s, first, lf, fixed).len()) == Step::Done((State {
            flag: state_flag(s, first, lf, fixed),
            _in: s._in,
            out: s.out,
            final_out: s.final_out,
            target: s.target,
            next_state: p0 as u64,
            is_final: false,
        }, p0)),
{
    let f = state_flag(s, first, lf, fixed);
    lemma_state_flag(s, first, lf, fixed);
    let o1 = opt_vu64(s.target > 0 && !is_target_next(s, lf, fixed), s.target);
    let o2 = opt_vu64(s.out != 0, s.out);
    let o3 = opt_vu64(s.final_out != 0, s.final_out);
    let tail = seq![s._in, f];
    let b = state_bytes(s, first, lf, fixed);
    assert(b == o1 + o2 + o3 + tail);
    let i0 = p0 + b.len();
    lemma_holds_split(data, i0, o1 + o2 + o3, tail);
    let i2 = i0 - 2;
    assert(data[i0 - 1] == f) by {
        assert(data.subrange(i0 - 2, i0)[1] == tail[1]);
    }
    assert(data[i0 - 2] == s._in) by {
        assert(data.subrange(i0 - 2, i0)[0] == tail[0]);
    }
    lemma_holds_split(data, i2, o1 + o2, o3);
    lemma_read_opt(data, i2, s.final_out != 0, s.final_out);
    let i3 = i2 - o3.len();
    lemma_holds_split(data, i3, o1, o2);
    lemma_read_opt(data, i3, s.out != 0, s.out);
    let i4 = i3 - o2.len();
    lemma_read_opt(data, i4, s.target > 0 && !is_target_next(s, lf, fixed), s.target);
    let i5 = i4 - o1.len();
    reveal(opt_vu64);
    assert(i5 == p0);
    assert(read_byte_at(data, i0) == Step::Done((f, i0 - 1)));
    assert(read_byte_at(data, i0 - 1) == Step::Done((s._in, i2)));
    let r = read_state_fields(data, f, s._in, i2);
    assert(r.0.final_out == s.final_out);
    assert(r.0.out == s.out);
    assert(r.0.target == s.target);
    assert(r.1 == p0);
}

pub proof fn lemma_prefix_trans(a: Seq<u8>, b: Seq<u8>, c: Seq<u8>)
    requires
        is_prefix(a, b),
        is_prefix(b, c),
    ensures
        is_prefix(a, c),
{
    assert(c.subrange(0, a.len() as int) =~= c.subrange(0, b.len() as int).subrange(0, a.len() as int));
}

proof fn lemma_prefix_holds(x: Seq<u8>, b: Seq<u8>, data: Seq<u8>)
    requires
        is_prefix(x + b, data),
    ensures
        holds_before(data, (x + b).len() as int, b),
{
    let n = (x + b).len() as int;
    assert(data.subrange(n - b.len(), n) =~= data.subrange(0, n).subrange(x.len() as int, n));
    assert((x + b).subrange(x.len() as int, n) =~= b);
}

/// Arc `k` of a node reads back as `dec_arc`, and the reader then stands where
/// arc `k + 1` ends.
pub proof fn lemma_read_arc(data: Seq<u8>, e: EncV, states: Seq<State>, k: int, fixed: bool)
    requires
        aligned(e),
        0 <= k < states.len(),
        is_prefix(encode_arcs(e, states, states.len() as int, fixed).bytes, data),
        encode_arcs(e, states, states.len() as int, fixed).bytes.len() <= u64::MAX,
    ensures
        read_state_at(data, arc_end(e, states, k, fixed) as int)
            == Step::Done((dec_arc(e, states, k, fixed), arc_end(e, states, k + 1, fixed) as int)),
        arc_end(e, states, k + 1, fixed) + 2 <= arc_end(e, states, k, fixed),
        e.position <= arc_end(e, states, k + 1, fixed),
{
    let n = states.len() as int;
    let r = n - k;
    lemma_arcs_prefix(e, states, r, n, fixed);
    lemma_arcs_shape(e, states, r, fixed);
    lemma_arcs_shape(e, states, r - 1, fixed);
    let prev = encode_arcs(e, states, r - 1, fixed);
    let cur = encode_arcs(e, states, r, fixed);
    let s = states[k];
    let b = state_bytes(s, r == 1, prev.last_frozen, fixed);
    assert(n - (k + 1) == r - 1);
    assert(cur.bytes == prev.bytes + b);
    lemma_prefix_trans(cur.bytes, encode_arcs(e, states, n, fixed).bytes, data);
    lemma_prefix_holds(prev.bytes, b, data);
    lemma_read_state_bytes(data, prev.bytes.len() as int, s, r == 1, prev.last_frozen, fixed);
    assert((k == n - 1) == (r == 1));
}

/// Scanning the arcs of a node from arc `k` finds the arc `j` with the label sought.
pub proof fn lemma_scan_node(data: Seq<u8>, e: EncV, states: Seq<State>, k: int, j: int, fixed: bool)
    requires
        aligned(e),
        sorted_labels(states),
        0 <= k <= j < states.len(),
        is_prefix(encode_arcs(e, states, states.len() as int, fixed).bytes, data),
        encode_arcs(e, states, states.len() as int, fixed).bytes.len() <= u64::MAX,
    ensures
        scan_arcs(data, dec_arc(e, states, k, fixed), arc_end(e, states, k + 1, fixed) as int, states[j]._in)
            == Step::Done((dec_arc(e, states, j, fixed), arc_end(e, states, j + 1, fixed) as int)),
    decreases j - k,
{
    if k < j {
        let d = dec_arc(e, states, k, fixed);
        lemma_state_flag(states[k], k == states.len() - 1, arc_end(e, states, k + 1, fixed), fixed);
        assert(states[k]._in < states[j]._in);
        lemma_read_arc(data, e, states, k + 1, fixed);
        lemma_scan_node(data, e, states, k + 1, j, fixed);
    }
}

/// The address of a node written from encoder `e`.
pub open spec fn node_addr(e: EncV, node: NodeV) -> u64 {
    encode_node(e, node).last_frozen
}

/// Following an arc to a node of at most ten arcs starts a scan at its first arc.
proof fn lemma_list_node_entry(data: Seq<u8>, e: EncV, node: NodeV, st: State, i: int, c: u8)
    requires
        aligned(e),
        0 < node.states.len() <= FIXED_ARRAY_NUM_STATE_DEEP,
        is_prefix(encode_node(e, node).bytes, data),
        data.len() <= usize::MAX,
        st.target == node_addr(e, node),
    ensures
        find_target(data, st, i, c)
            == scan_arcs(data, dec_arc(e, node.states, 0, false), arc_end(e, node.states, 1, false) as int, c),
        is_prefix(encode_arcs(e, node.states, node.states.len() as int, false).bytes, data),
        encode_arcs(e, node.states, node.states.len() as int, false).bytes.len() <= u64::MAX,
{
    let states = node.states;
    let n = states.len() as int;
    assert(encode_node(e, node) == encode_arcs(e, states, n, false));
    lemma_arcs_shape(e, states, n, false);
    assert(arc_end(e, states, 0, false) == st.target);
    lemma_read_arc(data, e, states, 0, false);
    lemma_state_flag(states[0], 0 == n - 1, arc_end(e, states, 1, false), false);
    assert(st.target > 0);
    assert((st.target as usize) as int == st.target);
}

/// Following an arc to a node of at most ten arcs finds the arc with the label sought.
pub proof fn lemma_find_in_list_node(data: Seq<u8>, e: EncV, node: NodeV, j: int, st: State, i: int)
    requires
        aligned(e),
        sorted_labels(node.states),
        0 <= j < node.states.len() <= FIXED_ARRAY_NUM_STATE_DEEP,
        is_prefix(encode_node(e, node).bytes, data),
        data.len() <= usize::MAX,
        st.target == node_addr(e, node),
    ensures
        find_target(data, st, i, node.states[j]._in)
            == Step::Done((dec_arc(e, node.states, j, false), arc_end(e, node.states, j + 1, false) as int)),
{
    lemma_list_node_entry(data, e, node, st, i, node.states[j]._in);
    lemma_scan_node(data, e, node.states, 0, j, false);
}

/// Scanning the arcs of a node from arc `k` for a label no arc carries stops
/// at a greater label or after the last arc.
proof fn lemma_scan_absent(data: Seq<u8>, e: EncV, states: Seq<State>, k: int, c: u8, fixed: bool)
    requires
        aligned(e),
        0 <= k < states.len(),
        forall|j: int| 0 <= j < states.len() ==> (#[trigger] states[j])._in != c,
        is_prefix(encode_arcs(e, states, states.len() as int, fixed).bytes, data),
        encode_arcs(e, states, states.len() as int, fixed).bytes.len() <= u64::MAX,
    ensures
        scan_arcs(data, dec_arc(e, states, k, fixed), arc_end(e, states, k + 1, fixed) as int, c) == Step::<(State, int)>::Fail(
            ReadErr::NotFound,
        ) || scan_arcs(data, dec_arc(e, states, k, fixed), arc_end(e, states, k + 1, fixed) as int, c)
            == Step::<(State, int)>::Fail(ReadErr::Greater),
    decreases states.len() - k,
{
    lemma_state_flag(states[k], k == states.len() - 1, arc_end(e, states, k + 1, fixed), fixed);
    assert(states[k]._in != c);
    if states[k]._in < c && k + 1 < states.len() {
        lemma_read_arc(data, e, states, k + 1, fixed);
        lemma_scan_absent(data, e, states, k + 1, c, fixed);
    }
}

proof fn lemma_array_prefix(e: EncV, states: Seq<State>, r1: int, r2: int)
    requires
        0 <= r1 <= r2,
    ensures
        is_prefix(array_bytes(e, states, r1), array_bytes(e, states, r2)),
        array_bytes(e, states, r2).len() == 5 * r2,
    decreases r2 - r1,
{
    if r1 == r2 {
        lemma_array_len(e, states, r2);
        assert(array_bytes(e, states, r1).subrange(0, array_bytes(e, states, r1).len() as int) =~= array_bytes(e, states, r1));
    } else {
        lemma_array_prefix(e, states, r1, r2 - 1);
        lemma_array_len(e, states, r2);
        lemma_array_len(e, states, r1);
        let a = array_bytes(e, states, r1);
        let b = array_bytes(e, states, r2 - 1);
        let c = array_bytes(e, states, r2);
        assert(c.subrange(0, a.len() as int) =~= b.subrange(0, a.len() as int));
    }
}

proof fn lemma_array_len(e: EncV, states: Seq<State>, r: int)
    requires
        0 <= r,
    ensures
        array_bytes(e, states, r).len() == 5 * r,
    decreases r,
{
    if r > 0 {
        lemma_array_len(e, states, r - 1);
        lemma_be_u32_roundtrip(encode_arcs(e, states, r, true).last_frozen as u32);
    }
}

/// The array of a fixed-array node that ends before position `start` holds, for
/// each arc `m`, its input and its end address, and the arc reads back there.
pub open spec fn array_ok(data: Seq<u8>, e: EncV, states: Seq<State>, start: int) -> bool {
    forall|m: int| 0 <= m < states.len() ==> {
        &&& #[trigger] read_byte_at(data, start - 5 * m) == Step::Done((states[m]._in, start - 5 * m - 1))
        &&& read_be_u32_at(data, start - 5 * m - 1) == Step::Done((arc_end(e, states, m, true) as u32, start - 5 * m - 5))
        &&& arc_end(e, states, m, true) <= u32::MAX
        &&& read_state_at(data, arc_end(e, states, m, true) as int)
            == Step::Done((dec_arc(e, states, m, true), arc_end(e, states, m + 1, true) as int))
    }
}

/// Bisection over the array of a fixed-array node finds the arc with the label sought.
pub proof fn lemma_bisect(data: Seq<u8>, e: EncV, states: Seq<State>, start: int, j: int, low: int, high: int)
    requires
        sorted_labels(states),
        0 <= low <= j <= high < states.len(),
        5 * states.len() <= start <= data.len() <= usize::MAX,
        array_ok(data, e, states, start),
    ensures
        bisect(data, start, states[j]._in, low as u64, high as u64)
            == Step::Done((dec_arc(e, states, j, true), arc_end(e, states, j + 1, true) as int)),
    decreases high - low,
{
    let lo = low as u64;
    let hi = high as u64;
    let c = states[j]._in;
    assert(lo + hi <= u64::MAX);
    let mid = ((lo + hi) as u64) >> 1u64;
    assert(mid == (lo + hi) / 2) by (bit_vector)
        requires
            lo + hi <= u64::MAX,
            mid == ((lo + hi) as u64) >> 1u64,
    ;
    let m = mid as int;
    assert(m * 5 <= start);
    assert((((mid * 5) as u64) as usize) as int == m * 5);
    let pos = start - m * 5;
    assert(read_byte_at(data, start - 5 * m) == Step::Done((states[m]._in, start - 5 * m - 1)));
    assert(pos == start - 5 * m);
    if states[m]._in < c {
        if m >= j {
            if m > j {
                assert(states[j]._in < states[m]._in);
            }
        }
        lemma_bisect(data, e, states, start, j, m + 1, high);
    } else if states[m]._in > c {
        if m <= j {
            if m < j {
                assert(states[m]._in < states[j]._in);
            }
        }
        lemma_bisect(data, e, states, start, j, low, m - 1);
    } else {
        if m < j {
            assert(states[m]._in < states[j]._in);
        }
        if m > j {
            assert(states[j]._in < states[m]._in);
        }
        assert(m == j);
        assert(((arc_end(e, states, m, true) as u32) as usize) as int == arc_end(e, states, m, true));
    }
}

proof fn lemma_array_entry(data: Seq<u8>, e: EncV, states: Seq<State>, m: int)
    requires
        aligned(e),
        0 <= m < states.len(),
        is_prefix(encode_arcs(e, states, states.len() as int, true).bytes + array_bytes(e, states, states.len() as int), data),
        (encode_arcs(e, states, states.len() as int, true).bytes + array_bytes(e, states, states.len() as int)).len() <= u32::MAX,
    ensures
        ({
            let start = encode_arcs(e, states, states.len() as int, true).bytes.len() + 5 * states.len();
            &&& read_byte_at(data, start - 5 * m) == Step::Done((states[m]._in, start - 5 * m - 1))
            &&& read_be_u32_at(data, start - 5 * m - 1) == Step::Done((arc_end(e, states, m, true) as u32, start - 5 * m - 5))
            &&& arc_end(e, states, m, true) <= u32::MAX
            &&& read_state_at(data, arc_end(e, states, m, true) as int)
                == Step::Done((dec_arc(e, states, m, true), arc_end(e, states, m + 1, true) as int))
        }),
{
    let n = states.len() as int;
    let e1 = encode_arcs(e, states, n, true);
    let start = e1.bytes.len() + 5 * n;
    let r = n - m;
    let addr = encode_arcs(e, states, r, true).last_frozen;
    assert(addr == arc_end(e, states, m, true));
    let ent = rev_seq(be_u32_bytes(addr as u32)) + seq![states[n - r]._in];
    lemma_array_prefix(e, states, r, n);
    lemma_array_prefix(e, states, r - 1, r);
    let ab = array_bytes(e, states, r);
    assert(ab == array_bytes(e, states, r - 1) + ent);
    // e1.bytes + ab is a prefix of data
    let full = e1.bytes + array_bytes(e, states, n);
    assert(is_prefix(e1.bytes + ab, full)) by {
        assert(full.subrange(0, (e1.bytes + ab).len() as int) =~= e1.bytes + ab) by {
            assert(array_bytes(e, states, n).subrange(0, ab.len() as int) == ab);
        }
    }
    lemma_prefix_trans(e1.bytes + ab, full, data);
    assert(e1.bytes + ab == (e1.bytes + array_bytes(e, states, r - 1)) + ent);
    lemma_prefix_holds(e1.bytes + array_bytes(e, states, r - 1), ent, data);
    let end = (e1.bytes + ab).len() as int;
    assert(end == start - 5 * m);
    lemma_be_u32_roundtrip(addr as u32);
    let be = be_u32_bytes(addr as u32);
    assert(data[end - 1] == states[m]._in) by {
        assert(data.subrange(end - 5, end)[4] == ent[4]);
    }
    assert(bytes_before(data, end - 1, 4) =~= be) by {
        assert forall|t: int| 0 <= t < 4 implies bytes_before(data, end - 1, 4)[t] == be[t] by {
            assert(data.subrange(end - 5, end)[3 - t] == ent[3 - t]);
        }
    }
    // the arc itself
    lemma_arcs_shape(e, states, n, true);
    assert(is_prefix(e1.bytes, data)) by {
        assert(data.subrange(0, e1.bytes.len() as int) =~= data.subrange(0, end).subrange(0, e1.bytes.len() as int));
        assert((e1.bytes + ab).subrange(0, e1.bytes.len() as int) =~= e1.bytes);
    }
    lemma_read_arc(data, e, states, m, true);
    lemma_arcs_prefix(e, states, r, n, true);
    lemma_arcs_shape(e, states, r, true);
}

pub proof fn lemma_array_ok(data: Seq<u8>, e: EncV, states: Seq<State>)
    requires
        aligned(e),
        is_prefix(encode_arcs(e, states, states.len() as int, true).bytes + array_bytes(e, states, states.len() as int), data),
        (encode_arcs(e, states, states.len() as int, true).bytes + array_bytes(e, states, states.len() as int)).len() <= u32::MAX,
    ensures
        array_ok(data, e, states, (encode_arcs(e, states, states.len() as int, true).bytes.len() + 5 * states.len()) as int),
{
    let start = (encode_arcs(e, states, states.len() as int, true).bytes.len() + 5 * states.len()) as int;
    assert forall|m: int| 0 <= m < states.len() implies {
        &&& #[trigger] read_byte_at(data, start - 5 * m) == Step::Done((states[m]._in, start - 5 * m - 1))
        &&& read_be_u32_at(data, start - 5 * m - 1) == Step::Done((arc_end(e, states, m, true) as u32, start - 5 * m - 5))
        &&& arc_end(e, states, m, true) <= u32::MAX
        &&& read_state_at(data, arc_end(e, states, m, true) as int)
            == Step::Done((dec_arc(e, states, m, true), arc_end(e, states, m + 1, true) as int))
    } by {
        lemma_array_entry(data, e, states, m);
    }
}

/// Following an arc to a node of more than ten arcs starts a bisection of its
/// array of labels and addresses.
proof fn lemma_array_node_entry(data: Seq<u8>, e: EncV, node: NodeV, st: State, i: int, c: u8)
    requires
        aligned(e),
        FIXED_ARRAY_NUM_STATE_DEEP < node.states.len(),
        is_prefix(encode_node(e, node).bytes, data),
        encode_node(e, node).bytes.len() <= u32::MAX,
        data.len() <= usize::MAX,
        st.target == node_addr(e, node),
    ensures
        ({
            let start = (encode_arcs(e, node.states, node.states.len() as int, true).bytes.len() + 5 * node.states.len()) as int;
            &&& find_target(data, st, i, c) == bisect(data, start, c, 0, (node.states.len() - 1) as u64)
            &&& 5 * node.states.len() <= start <= data.len()
            &&& array_ok(data, e, node.states, start)
        }),
{
    let states = node.states;
    let n = states.len() as int;
    let e1 = encode_arcs(e, states, n, true);
    let ab = array_bytes(e, states, n);
    let hd = array_header(n as nat);
    lemma_arcs_shape(e, states, n, true);
    lemma_array_prefix(e, states, n, n);
    lemma_vu64_roundtrip(n as u64, Seq::empty());
    reveal(rev_vu64);
    let total = encode_node(e, node).bytes;
    assert(total == e1.bytes + (ab + hd));
    let a = total.len() as int;
    assert(st.target == a);
    let start = e1.bytes.len() + 5 * n;
    // the header
    assert(total == (e1.bytes + ab) + hd);
    lemma_prefix_holds(e1.bytes + ab, hd, data);
    assert(hd == rev_vu64(n as u64) + seq![0u8, ARCS_AS_FIXED_ARRAY]);
    lemma_holds_split(data, a, rev_vu64(n as u64), seq![0u8, ARCS_AS_FIXED_ARRAY]);
    assert(data[a - 1] == ARCS_AS_FIXED_ARRAY) by {
        assert(data.subrange(a - 2, a)[1] == seq![0u8, ARCS_AS_FIXED_ARRAY][1]);
    }
    assert(data[a - 2] == 0) by {
        assert(data.subrange(a - 2, a)[0] == seq![0u8, ARCS_AS_FIXED_ARRAY][0]);
    }
    lemma_read_rev_vu64(data, a - 2, n as u64);
    assert(a - 2 - vu64_bytes(n as u64).len() == start);
    assert(!has_flag(64u8, 32u8) && has_flag(64u8, 64u8) && !has_flag(64u8, 16u8) && !has_flag(64u8, 8u8)
        && !has_flag(64u8, 4u8)) by (bit_vector);
    let hdr = read_state_fields(data, ARCS_AS_FIXED_ARRAY, 0, a - 2);
    assert(hdr.0.final_out == n && hdr.1 == start && hdr.0.flag == ARCS_AS_FIXED_ARRAY);
    assert((st.target as usize) as int == a);
    assert(read_next_state_at(data, st.target, i) == Step::Done(hdr));
    // the array
    assert(is_prefix(e1.bytes + ab, data)) by {
        assert(data.subrange(0, (e1.bytes + ab).len() as int) =~= data.subrange(0, a).subrange(0, (e1.bytes + ab).len() as int));
        assert(total.subrange(0, (e1.bytes + ab).len() as int) =~= e1.bytes + ab);
    }
    lemma_array_ok(data, e, states);
}

/// Following an arc to a node of more than ten arcs finds the arc with the label
/// sought, by bisecting the array of addresses.
pub proof fn lemma_find_in_array_node(data: Seq<u8>, e: EncV, node: NodeV, j: int, st: State, i: int)
    requires
        aligned(e),
        sorted_labels(node.states),
        FIXED_ARRAY_NUM_STATE_DEEP < node.states.len(),
        0 <= j < node.states.len(),
        is_prefix(encode_node(e, node).bytes, data),
        encode_node(e, node).bytes.len() <= u32::MAX,
        data.len() <= usize::MAX,
        st.target == node_addr(e, node),
    ensures
        find_target(data, st, i, node.states[j]._in)
            == Step::Done((dec_arc(e, node.states, j, true), arc_end(e, node.states, j + 1, true) as int)),
{
    let n = node.states.len() as int;
    let start = (encode_arcs(e, node.states, n, true).bytes.len() + 5 * n) as int;
    lemma_array_node_entry(data, e, node, st, i, node.states[j]._in);
    lemma_bisect(data, e, node.states, start, j, 0, n - 1);
}

/// Bisection over the array of a fixed-array node for a label no arc carries
/// reports it not found.
proof fn lemma_bisect_absent(data: Seq<u8>, e: EncV, states: Seq<State>, start: int, c: u8, low: int, high: int)
    requires
        0 <= low <= high + 1,
        0 <= high < states.len(),
        forall|j: int| 0 <= j < states.len() ==> (#[trigger] states[j])._in != c,
        5 * states.len() <= start <= data.len() <= usize::MAX,
        array_ok(data, e, states, start),
    ensures
        bisect(data, start, c, low as u64, high as u64) == Step::<(State, int)>::Fail(ReadErr::NotFound),
    decreases high - low + 1,
{
    if low <= high {
        let lo = low as u64;
        let hi = high as u64;
        assert(lo + hi <= u64::MAX);
        let mid = ((lo + hi) as u64) >> 1u64;
        assert(mid == (lo + hi) / 2) by (bit_vector)
            requires
                lo + hi <= u64::MAX,
                mid == ((lo + hi) as u64) >> 1u64,
        ;
        let m = mid as int;
        assert(m * 5 <= start);
        assert((((mid * 5) as u64) as usize) as int == m * 5);
        assert(read_byte_at(data, start - 5 * m) == Step::Done((states[m]._in, start - 5 * m - 1)));
        assert(states[m]._in != c);
        if states[m]._in < c {
            if m + 1 <= high {
                lemma_bisect_absent(data, e, states, start, c, m + 1, high);
            } else {
                assert(bisect(data, start, c, (m + 1) as u64, hi) == Step::<(State, int)>::Fail(ReadErr::NotFound));
            }
        } else if m > 0 {
            lemma_bisect_absent(data, e, states, start, c, low, m - 1);
        }
    }
}

/// Following an arc to a written node for a label none of its arcs carries is
/// answered not found, or greater when a scan meets a greater label first.
pub proof fn lemma_find_absent(data: Seq<u8>, e: EncV, node: NodeV, c: u8, st: State, i: int)
    requires
        aligned(e),
        node.states.len() > 0,
        forall|j: int| 0 <= j < node.states.len() ==> (#[trigger] node.states[j])._in != c,
        is_prefix(encode_node(e, node).bytes, data),
        encode_node(e, node).bytes.len() <= u32::MAX,
        data.len() <= usize::MAX,
        st.target == node_addr(e, node),
    ensures
        find_target(data, st, i, c) == Step::<(State, int)>::Fail(ReadErr::NotFound)
            || find_target(data, st, i, c) == Step::<(State, int)>::Fail(ReadErr::Greater),
{
    let n = node.states.len() as int;
    if n > FIXED_ARRAY_NUM_STATE_DEEP {
        let start = (encode_arcs(e, node.states, n, true).bytes.len() + 5 * n) as int;
        lemma_array_node_entry(data, e, node, st, i, c);
        lemma_bisect_absent(data, e, node.states, start, c, 0, n - 1);
    } else {
        lemma_list_node_entry(data, e, node, st, i, c);
        lemma_scan_absent(data, e, node.states, 0, c, false);
    }
}

/// Writing a node keeps the encoder aligned, only appends, and puts the node at
/// an address past its arcs.
pub proof fn lemma_node_shape(e: EncV, node: NodeV)
    requires
        aligned(e),
        node.states.len() >= 1,
        encode_node(e, node).bytes.len() <= u64::MAX,
    ensures
        aligned(encode_node(e, node)),
        is_prefix(e.bytes, encode_node(e, node).bytes),
        node_addr(e, node) == encode_node(e, node).bytes.len(),
        node_addr(e, node) >= e.bytes.len() + 2,
{
    let states = node.states;
    let n = states.len() as int;
    let fixed = n > FIXED_ARRAY_NUM_STATE_DEEP;
    let e1 = encode_arcs(e, states, n, fixed);
    if fixed {
        let tail = array_bytes(e, states, n) + array_header(n as nat);
        assert(encode_node(e, node).bytes == e1.bytes + tail);
        assert(e1.bytes.len() <= encode_node(e, node).bytes.len());
        lemma_arcs_shape(e, states, n, fixed);
        lemma_array_len(e, states, n);
        reveal(rev_vu64);
        lemma_vu64_roundtrip(n as u64, Seq::empty());
        assert(is_prefix(e1.bytes, e1.bytes + tail)) by {
            assert((e1.bytes + tail).subrange(0, e1.bytes.len() as int) =~= e1.bytes);
        }
        lemma_prefix_trans(e.bytes, e1.bytes, e1.bytes + tail);
    } else {
        lemma_arcs_shape(e, states, n, fixed);
    }
}

/// The arc of a node with the label sought, as following an arc to the node reads it.
pub open spec fn found_arc(e: EncV, node: NodeV, j: int) -> State {
    dec_arc(e, node.states, j, node.states.len() > FIXED_ARRAY_NUM_STATE_DEEP)
}

/// Following an arc to a written node finds its arc with the label sought, which
/// reads back with its output, final output, target and finality.
pub proof fn lemma_find_in_node(data: Seq<u8>, e: EncV, node: NodeV, j: int, st: State, i: int)
    requires
        aligned(e),
        sorted_labels(node.states),
        0 <= j < node.states.len(),
        is_prefix(encode_node(e, node).bytes, data),
        encode_node(e, node).bytes.len() <= u32::MAX,
        data.len() <= usize::MAX,
        st.target == node_addr(e, node),
    ensures
        find_target(data, st, i, node.states[j]._in) matches Step::Done((d, _p)) && d == found_arc(e, node, j),
        found_arc(e, node, j).out == node.states[j].out,
        found_arc(e, node, j).final_out == node.states[j].final_out,
        found_arc(e, node, j).target == node.states[j].target,
        found_arc(e, node, j)._in == node.states[j]._in,
        has_flag(found_arc(e, node, j).flag, BIT_FINAL_STATE) == node.states[j].is_final,
{
    let n = node.states.len();
    let fixed = n > FIXED_ARRAY_NUM_STATE_DEEP;
    if fixed {
        lemma_find_in_array_node(data, e, node, j, st, i);
    } else {
        lemma_find_in_list_node(data, e, node, j, st, i);
    }
    lemma_state_flag(node.states[j], j == n - 1, arc_end(e, node.states, j + 1, fixed), fixed);
}

/// The arc read after arc `j` of a written node is arc `j + 1`.
pub proof fn lemma_read_next_arc(data: Seq<u8>, e: EncV, node: NodeV, j: int, i: int)
    requires
        aligned(e),
        0 <= j,
        j + 1 < node.states.len(),
        is_prefix(encode_node(e, node).bytes, data),
        encode_node(e, node).bytes.len() <= u32::MAX,
    ensures
        read_next_state_at(data, found_arc(e, node, j).next_state, i)
            == Step::Done((found_arc(e, node, j + 1), arc_end(e, node.states, j + 2, node.states.len() > FIXED_ARRAY_NUM_STATE_DEEP) as int)),
{
    let states = node.states;
    let n = states.len() as int;
    let fixed = n > FIXED_ARRAY_NUM_STATE_DEEP;
    let e1 = encode_arcs(e, states, n, fixed);
    lemma_arcs_shape(e, states, n, fixed);
    if fixed {
        let tail = array_bytes(e, states, n) + array_header(n as nat);
        assert(encode_node(e, node).bytes == e1.bytes + tail);
        assert(encode_node(e, node).bytes.subrange(0, e1.bytes.len() as int) =~= e1.bytes);
        lemma_prefix_trans(e1.bytes, encode_node(e, node).bytes, data);
    } else {
        assert(encode_node(e, node) == e1);
    }
    lemma_read_arc(data, e, states, j, fixed);
    lemma_read_arc(data, e, states, j + 1, fixed);
    assert(found_arc(e, node, j).next_state == arc_end(e, states, j + 1, fixed));
    lemma_arcs_prefix(e, states, n - j - 1, n, fixed);
    lemma_arcs_shape(e, states, n - j - 1, fixed);
    assert(arc_end(e, states, j + 1, fixed) <= e1.bytes.len());
    assert(e1.bytes.len() <= encode_node(e, node).bytes.len());
}

/// Following an arc to a written node reads its first arc; the array of a node of
/// more than ten arcs is skipped.
pub proof fn lemma_read_first_arc(data: Seq<u8>, e: EncV, node: NodeV, st: State, i: int)
    requires
        aligned(e),
        node.states.len() >= 1,
        is_prefix(encode_node(e, node).bytes, data),
        encode_node(e, node).bytes.len() <= u32::MAX,
        st.target == node_addr(e, node) || (st.target == 0 && i == node_addr(e, node)),
    ensures
        read_from_follow(data, st, i)
            == Step::Done((found_arc(e, node, 0), arc_end(e, node.states, 1, node.states.len() > FIXED_ARRAY_NUM_STATE_DEEP) as int)),
{
    let states = node.states;
    let n = states.len() as int;
    let fixed = n > FIXED_ARRAY_NUM_STATE_DEEP;
    let e1 = encode_arcs(e, states, n, fixed);
    lemma_arcs_shape(e, states, n, fixed);
    lemma_node_shape(e, node);
    let a = node_addr(e, node) as int;
    assert(read_next_state_at(data, st.target, i) == read_state_at(data, a));
    lemma_state_flag(states[0], 0 == n - 1, arc_end(e, states, 1, fixed), fixed);
    if fixed {
        let ab = array_bytes(e, states, n);
        let hd = array_header(n as nat);
        lemma_array_len(e, states, n);
        lemma_vu64_roundtrip(n as u64, Seq::empty());
        reveal(rev_vu64);
        let total = encode_node(e, node).bytes;
        assert(total == e1.bytes + (ab + hd));
        assert(total.len() == a);
        let start = e1.bytes.len() + 5 * n;
        assert(total == (e1.bytes + ab) + hd);
        lemma_prefix_holds(e1.bytes + ab, hd, data);
        assert(hd == rev_vu64(n as u64) + seq![0u8, ARCS_AS_FIXED_ARRAY]);
        lemma_holds_split(data, a, rev_vu64(n as u64), seq![0u8, ARCS_AS_FIXED_ARRAY]);
        assert(data[a - 1] == ARCS_AS_FIXED_ARRAY) by {
            assert(data.subrange(a - 2, a)[1] == seq![0u8, ARCS_AS_FIXED_ARRAY][1]);
        }
        assert(data[a - 2] == 0) by {
            assert(data.subrange(a - 2, a)[0] == seq![0u8, ARCS_AS_FIXED_ARRAY][0]);
        }
        lemma_read_rev_vu64(data, a - 2, n as u64);
        assert(a - 2 - vu64_bytes(n as u64).len() == start);
        assert(!has_flag(64u8, 32u8) && has_flag(64u8, 64u8) && !has_flag(64u8, 16u8) && !has_flag(64u8, 8u8)
            && !has_flag(64u8, 4u8)) by (bit_vector);
        let hdr = read_state_fields(data, ARCS_AS_FIXED_ARRAY, 0, a - 2);
        assert(hdr.0.final_out == n && hdr.1 == start && hdr.0.flag == ARCS_AS_FIXED_ARRAY);
        assert(read_state_at(data, a) == Step::Done(hdr));
        assert(((hdr.0.final_out as usize) as int) == n);
        assert(total.subrange(0, e1.bytes.len() as int) =~= e1.bytes);
        lemma_prefix_trans(e1.bytes, total, data);
        lemma_read_arc(data, e, states, 0, fixed);
        assert(arc_end(e, states, 0, fixed) == e1.bytes.len());
    } else {
        assert(encode_node(e, node) == e1);
        lemma_read_arc(data, e, states, 0, fixed);
        assert(arc_end(e, states, 0, fixed) == a);
    }
}

/// The flags of an arc as it reads back: it ends a key when the arc does, and it
/// is marked last exactly when it is the node's last arc.
pub proof fn lemma_found_arc_flags(e: EncV, node: NodeV, j: int)
    requires
        0 <= j < node.states.len(),
    ensures
        has_flag(found_arc(e, node, j).flag, BIT_FINAL_STATE) == node.states[j].is_final,
        has_flag(found_arc(e, node, j).flag, BIT_LAST_STATE) == (j == node.states.len() - 1),
        !has_flag(found_arc(e, node, j).flag, ARCS_AS_FIXED_ARRAY),
        found_arc(e, node, j)._in == node.states[j]._in,
        found_arc(e, node, j).out == node.states[j].out,
        found_arc(e, node, j).final_out == node.states[j].final_out,
        found_arc(e, node, j).target == node.states[j].target,
{
    let n = node.states.len();
    let fixed = n > FIXED_ARRAY_NUM_STATE_DEEP;
    lemma_state_flag(node.states[j], j == n - 1, arc_end(e, node.states, j + 1, fixed), fixed);
}

} // verus!
