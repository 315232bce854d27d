use vstd::prelude::*;
use crate::codec::be_u32_of;
use crate::codec::vu64_decode;
use crate::error::ReadErr;
use crate::state::fresh_state;
use crate::state::has_flag;
use crate::state::state_with_target;
use crate::state::State;
use crate::state::ARCS_AS_FIXED_ARRAY;
use crate::state::BIT_FINAL_STATE;
use crate::state::BIT_LAST_STATE;
use crate::state::BIT_STATE_HAS_FINAL_OUTPUT;
use crate::state::BIT_STATE_HAS_OUPPUT;
use crate::state::BIT_STOP_NODE;
use crate::state::BIT_TAGET_NEXT;

verus! {

/// The outcome of reading: a value, a failure the reader reports, or a read
/// outside the bytes (or an arithmetic overflow), which the reader never attempts.
pub enum Step<T> {
    Done(T),
    Fail(ReadErr),
    Crash,
}

/// Bytes are read back to front: a position `i` is the count of bytes not yet
/// read, and the next byte read is `data[i - 1]`.
pub open spec fn read_byte_at(data: Seq<u8>, i: int) -> Step<(u8, int)> {
    if i > data.len() {
        Step::Crash
    } else if i <= 0 {
        Step::Fail(ReadErr::Eof)
    } else {
        Step::Done((data[i - 1], i - 1))
    }
}

/// The `k` bytes before position `i`, in reading order.
pub open spec fn bytes_before(data: Seq<u8>, i: int, k: int) -> Seq<u8> {
    Seq::new(k as nat, |j: int| data[i - 1 - j])
}

/// How many bytes a variable-length read takes from `k` available bytes whose
/// decoding reported count `n`.
pub open spec fn vu64_consumed(n: int, k: int) -> int {
    if n > 0 { n } else if n < 0 { -n } else { k }
}

/// Reading a variable-length integer before position `i`: up to eleven bytes are
/// looked at; a malformed encoding reads as 0.
pub open spec fn read_vu64_at(data: Seq<u8>, i: int) -> Step<(u64, int)> {
    if i > data.len() {
        Step::Crash
    } else {
        let k = if i < 11 { i } else { 11 };
        let (v, n) = vu64_decode(bytes_before(data, i, k));
        Step::Done((v, i - vu64_consumed(n as int, k)))
    }
}

/// Reading four bytes before position `i`, most significant first.
pub open spec fn read_be_u32_at(data: Seq<u8>, i: int) -> Step<(u32, int)> {
    if i > data.len() {
        Step::Crash
    } else if i < 4 {
        Step::Fail(ReadErr::Eof)
    } else {
        Step::Done((be_u32_of(bytes_before(data, i, 4)), i - 4))
    }
}

/// The fields of an arc after its flag and input: final output, output, target.
pub open spec fn read_state_fields(data: Seq<u8>, flag: u8, inp: u8, i: int) -> (State, int) {
    let has_fo = has_flag(flag, BIT_STATE_HAS_FINAL_OUTPUT) || has_flag(flag, ARCS_AS_FIXED_ARRAY);
    let (fo, i1) = if has_fo {
        match read_vu64_at(data, i) {
            Step::Done((v, j)) => (v, j),
            _ => (0, i),
        }
    } else {
        (0u64, i)
    };
    let (o, i2) = if has_flag(flag, BIT_STATE_HAS_OUPPUT) {
        match read_vu64_at(data, i1) {
            Step::Done((v, j)) => (v, j),
            _ => (0, i1),
        }
    } else {
        (0u64, i1)
    };
    let (t, i3) = if has_flag(flag, BIT_STOP_NODE) {
        (0u64, i2)
    } else if !has_flag(flag, BIT_TAGET_NEXT) && !has_flag(flag, ARCS_AS_FIXED_ARRAY) {
        match read_vu64_at(data, i2) {
            Step::Done((v, j)) => (v, j),
            _ => (0, i2),
        }
    } else {
        (i2 as u64, i2)
    };
    (State { flag: flag, _in: inp, out: o, final_out: fo, target: t, next_state: i3 as u64, is_final: false }, i3)
}

/// Reading one arc before position `i`: flag, input, then the fields the flag
/// announces; the arc's `next_state` is the position after it.
pub open spec fn read_state_at(data: Seq<u8>, i: int) -> Step<(State, int)> {
    match read_byte_at(data, i) {
        Step::Done((flag, i1)) => match read_byte_at(data, i1) {
            Step::Done((inp, i2)) => Step::Done(read_state_fields(data, flag, inp, i2)),
            Step::Fail(e) => Step::Fail(e),
            Step::Crash => Step::Crash,
        },
        Step::Fail(e) => Step::Fail(e),
        Step::Crash => Step::Crash,
    }
}

/// What a failed read of an arc before position `i` leaves: the reader runs out
/// of bytes before the flag (a fresh arc, the position kept) or before the input
/// (a fresh arc with only the flag read, the position before it).
pub open spec fn read_state_left(data: Seq<u8>, i: int) -> (State, int) {
    if i <= 0 {
        (fresh_state(0, 0), i)
    } else {
        (State { flag: data[i - 1], ..fresh_state(0, 0) }, i - 1)
    }
}

/// The position a read of the arc at `target` starts from: `target`, or `i`
/// when the target is 0.
pub open spec fn next_state_pos(target: u64, i: int) -> int {
    if target > 0 { (target as usize) as int } else { i }
}

/// Reading the arc at `target`, or at `i` when the target is 0.
pub open spec fn read_next_state_at(data: Seq<u8>, target: u64, i: int) -> Step<(State, int)> {
    read_state_at(data, if target > 0 { (target as usize) as int } else { i })
}

pub proof fn lemma_read_vu64_progress(data: Seq<u8>, i: int)
    requires
        0 <= i,
    ensures
        read_vu64_at(data, i) matches Step::Done((v, j)) ==> 0 <= j <= i,
{
    if i <= data.len() {
        let k = if i < 11 { i } else { 11 };
        let s = bytes_before(data, i, k);
        crate::codec::lemma_vu64_scan_bound(s);
        assert(vu64_decode(s).1 as int == crate::codec::vu64_scan(s, 0));
    }
}

/// Reading an arc consumes at least its flag and input.
pub proof fn lemma_read_state_progress(data: Seq<u8>, i: int)
    ensures
        read_state_at(data, i) matches Step::Done((s, j)) ==> 0 <= j <= i - 2 && s.next_state == j as u64,
{
    if 2 <= i <= data.len() {
        let i2 = i - 2;
        lemma_read_vu64_progress(data, i2);
        let flag = data[i - 1];
        let has_fo = has_flag(flag, BIT_STATE_HAS_FINAL_OUTPUT) || has_flag(flag, ARCS_AS_FIXED_ARRAY);
        let i1 = if has_fo { match read_vu64_at(data, i2) { Step::Done((v, j)) => j, _ => i2 } } else { i2 };
        lemma_read_vu64_progress(data, i1);
        let i3 = if has_flag(flag, BIT_STATE_HAS_OUPPUT) { match read_vu64_at(data, i1) { Step::Done((v, j)) => j, _ => i1 } } else { i1 };
        lemma_read_vu64_progress(data, i3);
    }
}

/// Scanning the arcs of a node in order, from arc `s` (read before position `p`),
/// for input `c`: arcs are sorted, so an arc with a greater input ends the search.
pub open spec fn scan_arcs(data: Seq<u8>, s: State, p: int, c: u8) -> Step<(State, int)>
    decreases p,
{
    if s._in == c {
        Step::Done((s, p))
    } else if s._in > c {
        Step::Fail(ReadErr::Greater)
    } else if has_flag(s.flag, BIT_LAST_STATE) {
        Step::Fail(ReadErr::NotFound)
    } else {
        match read_state_at(data, p) {
            Step::Done((s2, p2)) => {
                proof {
                    lemma_read_state_progress(data, p);
                }
                scan_arcs(data, s2, p2, c)
            },
            Step::Fail(e) => Step::Fail(e),
            Step::Crash => Step::Crash,
        }
    }
}

/// Bisecting the array of a fixed-array node, whose entries (input, then four
/// address bytes) lie before position `start`, five bytes each, between entries
/// `low` and `high`, for input `c`; the arc found is read at its address.
pub open spec fn bisect(data: Seq<u8>, start: int, c: u8, low: u64, high: u64) -> Step<(State, int)>
    decreases high - low + 1,
{
    if low > high {
        Step::Fail(ReadErr::NotFound)
    } else if low + high > u64::MAX {
        Step::Crash
    } else {
        let mid = ((low + high) as u64) >> 1u64;
        if mid * 5 > u64::MAX || (((mid * 5) as u64) as usize) as int > start {
            Step::Crash
        } else {
            let pos = start - ((((mid * 5) as u64) as usize) as int);
            match read_byte_at(data, pos) {
                Step::Done((label, p1)) => {
                    proof {
                        assert(mid <= high) by (bit_vector)
                            requires
                                low <= high,
                                low + high <= u64::MAX,
                                mid == ((low + high) as u64) >> 1u64,
                        ;
                        assert(mid >= low) by (bit_vector)
                            requires
                                low <= high,
                                low + high <= u64::MAX,
                                mid == ((low + high) as u64) >> 1u64,
                        ;
                    }
                    if label < c {
                        bisect(data, start, c, (mid + 1) as u64, high)
                    } else if label > c {
                        if mid == 0 {
                            Step::Fail(ReadErr::NotFound)
                        } else {
                            bisect(data, start, c, low, (mid - 1) as u64)
                        }
                    } else {
                        match read_be_u32_at(data, p1) {
                            Step::Done((a, _p2)) => read_state_at(data, (a as usize) as int),
                            Step::Fail(e) => Step::Fail(e),
                            Step::Crash => Step::Crash,
                        }
                    }
                },
                Step::Fail(e) => Step::Fail(e),
                Step::Crash => Step::Crash,
            }
        }
    }
}

/// Following arc `st` (the reader stands at `i`) to the arc with input `c` of its
/// target node: by bisection in a fixed-array node, by scanning otherwise.
pub open spec fn find_target(data: Seq<u8>, st: State, i: int, c: u8) -> Step<(State, int)> {
    match read_next_state_at(data, st.target, i) {
        Step::Done((s, p1)) => if has_flag(s.flag, ARCS_AS_FIXED_ARRAY) {
            if s.final_out == 0 {
                Step::Crash
            } else {
                bisect(data, p1, c, 0, (s.final_out - 1) as u64)
            }
        } else {
            scan_arcs(data, s, p1, c)
        },
        Step::Fail(e) => Step::Fail(e),
        Step::Crash => Step::Crash,
    }
}

/// Looking up `key` from byte `j` on, having followed arc `st` with the sum of
/// outputs `out`: the sum of the outputs along the path and the final output of
/// its last arc, when that arc ends a key. An arc without a target has no node
/// below it, so key bytes left over are not found.
pub open spec fn get_walk(data: Seq<u8>, st: State, i: int, key: Seq<u8>, j: int, out: u64) -> Step<(u64, int)>
    decreases key.len() - j,
{
    if j >= key.len() {
        if !has_flag(st.flag, BIT_FINAL_STATE) {
            Step::Fail(ReadErr::NotFound)
        } else if out + st.final_out > u64::MAX {
            Step::Crash
        } else {
            Step::Done(((out + st.final_out) as u64, i))
        }
    } else if st.target == 0 {
        Step::Fail(ReadErr::NotFound)
    } else {
        match find_target(data, st, i, key[j]) {
            Step::Done((s2, p2)) => if out + s2.out > u64::MAX {
                Step::Crash
            } else {
                get_walk(data, s2, p2, key, j + 1, (out + s2.out) as u64)
            },
            Step::Fail(e) => Step::Fail(e),
            Step::Crash => Step::Crash,
        }
    }
}

/// Looking up `key` with the reader standing at `i`: the root node is the one
/// that ends there.
pub open spec fn get_from(data: Seq<u8>, i: int, key: Seq<u8>) -> Step<(u64, int)> {
    get_walk(data, state_with_target(fresh_state(0, 0), i as u64), i, key, 0, 0)
}

/// Looking up `key` in the transducer `data`, whose root node is written last.
pub open spec fn spec_get(data: Seq<u8>, key: Seq<u8>) -> Step<(u64, int)> {
    get_from(data, data.len() as int, key)
}

/// Reading the first arc of the node that arc `follow` points to, skipping the
/// array of a fixed-array node.
pub open spec fn read_from_follow(data: Seq<u8>, follow: State, i: int) -> Step<(State, int)> {
    match read_next_state_at(data, follow.target, i) {
        Step::Done((s, p)) => if has_flag(s.flag, ARCS_AS_FIXED_ARRAY) {
            let num = (s.final_out as usize) as int;
            if num * 5 > usize::MAX || num * 5 > p {
                Step::Crash
            } else {
                read_state_at(data, p - num * 5)
            }
        } else {
            Step::Done((s, p))
        },
        Step::Fail(e) => Step::Fail(e),
        Step::Crash => Step::Crash,
    }
}

/// The arc after `s` while iterating: the arc at `s.next_state`, except after the
/// pseudo-arc of a key that longer keys go on from, where it is the first arc of
/// the node below that key (past the array of a fixed-array node).
pub open spec fn next_arc(data: Seq<u8>, s: State, i: int) -> Step<(State, int)> {
    if s._in == 255 {
        read_from_follow(data, state_with_target(s, s.next_state), i)
    } else {
        read_next_state_at(data, s.next_state, i)
    }
}

/// The first arc below `follow` while iterating; when `follow` ends a key this is
/// a pseudo-arc with input 255 that carries `follow`'s final output and leads on
/// to `follow`'s target. Fields the pseudo-arc does not set keep the values of
/// `old`, the arc it replaces.
pub open spec fn read_first_target(data: Seq<u8>, follow: State, old: State, i: int) -> Step<(State, int)> {
    if has_flag(follow.flag, BIT_FINAL_STATE) {
        Step::Done((State {
            flag: if follow.target <= 0 { BIT_FINAL_STATE | BIT_LAST_STATE } else { BIT_FINAL_STATE },
            _in: 255,
            out: follow.final_out,
            final_out: old.final_out,
            target: 0,
            next_state: if follow.target <= 0 { old.next_state } else { follow.target },
            is_final: old.is_final,
        }, i))
    } else {
        read_from_follow(data, follow, i)
    }
}

} // verus!
