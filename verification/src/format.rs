use vstd::prelude::*;
use crate::codec::be_u32_bytes;
use crate::codec::vu64_bytes;
use crate::state::NodeV;
use crate::state::State;
use crate::state::ARCS_AS_FIXED_ARRAY;
use crate::state::BIT_FINAL_STATE;
use crate::state::BIT_LAST_STATE;
use crate::state::BIT_STATE_HAS_FINAL_OUTPUT;
use crate::state::BIT_STATE_HAS_OUPPUT;
use crate::state::BIT_STOP_NODE;
use crate::state::BIT_TAGET_NEXT;

verus! {

/// Nodes with more arcs than this are written as fixed arrays.
pub const FIXED_ARRAY_NUM_STATE_DEEP: usize = 10;

/// The output that marks an arc without one.
pub const NO_OUTPUT: u64 = 0;

/// The abstract state of an encoder: the bytes written so far, the address of
/// the node written last, and the count of bytes the addresses are measured in.
pub struct EncV {
    pub bytes: Seq<u8>,
    pub last_frozen: u64,
    pub position: u64,
}

/// The arc's target is the node written just before it, so its address is not written.
pub open spec fn is_target_next(s: State, last_frozen: u64, fixed: bool) -> bool {
    s.target > 0 && last_frozen == s.target && !fixed
}

/// The flag byte of an arc: `first` is true for the node's last arc, which is written first.
#[verifier::opaque]
pub open spec fn state_flag(s: State, first: bool, last_frozen: u64, fixed: bool) -> u8 {
    let f0: u8 = if first { 0u8 | BIT_LAST_STATE } else { 0u8 };
    let f1: u8 = if s.is_final { f0 | BIT_FINAL_STATE } else { f0 };
    let f2: u8 = if s.target > 0 {
        if is_target_next(s, last_frozen, fixed) { f1 | BIT_TAGET_NEXT } else { f1 }
    } else {
        f1 | BIT_STOP_NODE
    };
    let f3: u8 = if s.out != NO_OUTPUT { f2 | BIT_STATE_HAS_OUPPUT } else { f2 };
    if s.final_out != NO_OUTPUT { f3 | BIT_STATE_HAS_FINAL_OUTPUT } else { f3 }
}

/// The reversed variable-length encoding of `x`, as the encoder writes it so that
/// it reads forward when the bytes are read back to front.
#[verifier::opaque]
pub open spec fn rev_vu64(x: u64) -> Seq<u8> {
    rev_seq(vu64_bytes(x))
}

/// `s` back to front.
pub open spec fn rev_seq(s: Seq<u8>) -> Seq<u8> {
    Seq::new(s.len(), |i: int| s[s.len() - 1 - i])
}

/// The bytes written for one arc: its target address (unless there is none, or it
/// is the node just written), its output, its final output, its input and its flag.
pub open spec fn state_bytes(s: State, first: bool, last_frozen: u64, fixed: bool) -> Seq<u8> {
    opt_vu64(s.target > 0 && !is_target_next(s, last_frozen, fixed), s.target)
        + opt_vu64(s.out != NO_OUTPUT, s.out)
        + opt_vu64(s.final_out != NO_OUTPUT, s.final_out)
        + seq![s._in, state_flag(s, first, last_frozen, fixed)]
}

/// The reversed encoding of `x` when `c` holds, else nothing.
#[verifier::opaque]
pub open spec fn opt_vu64(c: bool, x: u64) -> Seq<u8> {
    if c { rev_vu64(x) } else { Seq::empty() }
}

pub open spec fn encode_state(e: EncV, s: State, first: bool, fixed: bool) -> EncV {
    let b = state_bytes(s, first, e.last_frozen, fixed);
    let pos = (e.position + b.len()) as u64;
    EncV { bytes: e.bytes + b, last_frozen: pos, position: pos }
}

/// The encoder after the last `r` arcs of a node have been written, last arc first.
pub open spec fn encode_arcs(e: EncV, states: Seq<State>, r: int, fixed: bool) -> EncV
    decreases r,
{
    if r <= 0 {
        e
    } else {
        encode_state(encode_arcs(e, states, r - 1, fixed), states[states.len() - r], r == 1, fixed)
    }
}

/// The array entries of a fixed-array node, for its last `r` arcs: the address
/// after each arc (four bytes, least significant first) and its input.
pub open spec fn array_bytes(e: EncV, states: Seq<State>, r: int) -> Seq<u8>
    decreases r,
{
    if r <= 0 {
        Seq::empty()
    } else {
        array_bytes(e, states, r - 1) + rev_seq(be_u32_bytes(encode_arcs(e, states, r, true).last_frozen as u32))
            + seq![states[states.len() - r]._in]
    }
}

/// The node header of a fixed-array node: the number of arcs, input 0 and the array flag.
pub open spec fn array_header(n: nat) -> Seq<u8> {
    rev_vu64(n as u64) + seq![0u8, ARCS_AS_FIXED_ARRAY]
}

/// The encoder after a node has been written: its arcs, last first, and for a
/// node of more than ten arcs the array of their addresses and the header.
pub open spec fn encode_node(e: EncV, node: NodeV) -> EncV {
    let n = node.states.len();
    let fixed = n > FIXED_ARRAY_NUM_STATE_DEEP;
    let e1 = encode_arcs(e, node.states, n as int, fixed);
    if fixed {
        let tail = array_bytes(e, node.states, n as int) + array_header(n);
        let pos = (e1.position + 5 * n + vu64_bytes(n as u64).len() + 2) as u64;
        EncV { bytes: e1.bytes + tail, last_frozen: pos, position: pos }
    } else {
        e1
    }
}

/// Writing bytes keeps the encoder's count of bytes below the length of its buffer.
pub open spec fn enc_wf(e: EncV) -> bool {
    e.position <= e.bytes.len()
}

} // verus!
