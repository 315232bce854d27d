use vstd::prelude::*;
use crate::node_laws::is_prefix;
use crate::reading::bisect;
use crate::reading::bytes_before;
use crate::reading::find_target;
use crate::reading::get_walk;
use crate::reading::lemma_read_state_progress;
use crate::reading::read_be_u32_at;
use crate::reading::read_next_state_at;
use crate::reading::read_state_at;
use crate::reading::read_state_fields;
use crate::reading::read_vu64_at;
use crate::reading::scan_arcs;
use crate::reading::Step;
use crate::state::has_flag;
use crate::state::State;
use crate::state::BIT_FINAL_STATE;

verus! {

/// The value a lookup gives, if it gives one.
pub open spec fn step_value(s: Step<(u64, int)>) -> Option<u64> {
    match s {
        Step::Done((v, _)) => Some(v),
        _ => None,
    }
}

proof fn lemma_ext_bytes_before(data: Seq<u8>, data2: Seq<u8>, i: int, k: int)
    requires
        is_prefix(data, data2),
        0 <= k <= i <= data.len(),
    ensures
        bytes_before(data, i, k) == bytes_before(data2, i, k),
{
    assert forall|j: int| 0 <= j < k implies bytes_before(data, i, k)[j] == bytes_before(data2, i, k)[j] by {
        assert(data2.subrange(0, data.len() as int)[i - 1 - j] == data[i - 1 - j]);
    }
    assert(bytes_before(data, i, k) =~= bytes_before(data2, i, k));
}

proof fn lemma_ext_read_state(data: Seq<u8>, data2: Seq<u8>, i: int)
    requires
        is_prefix(data, data2),
        !(read_state_at(data, i) is Crash),
    ensures
        read_state_at(data2, i) == read_state_at(data, i),
{
    if 2 <= i <= data.len() {
        assert(data2[i - 1] == data[i - 1]) by {
            assert(data2.subrange(0, data.len() as int)[i - 1] == data[i - 1]);
        }
        assert(data2[i - 2] == data[i - 2]) by {
            assert(data2.subrange(0, data.len() as int)[i - 2] == data[i - 2]);
        }
        assert forall|p: int| 0 <= p <= i - 2 implies read_vu64_at(data2, p) == read_vu64_at(data, p) by {
            let k = if p < 11 { p } else { 11 };
            lemma_ext_bytes_before(data, data2, p, k);
        }
        crate::reading::lemma_read_vu64_progress(data, i - 2);
        let flag = data[i - 1];
        let inp = data[i - 2];
        let r1 = read_state_fields(data, flag, inp, i - 2);
        let r2 = read_state_fields(data2, flag, inp, i - 2);
        let i2 = i - 2;
        let i1 = match read_vu64_at(data, i2) {
            Step::Done((v, j)) => j,
            _ => i2,
        };
        crate::reading::lemma_read_vu64_progress(data, i1);
        let i3 = match read_vu64_at(data, i1) {
            Step::Done((v, j)) => j,
            _ => i1,
        };
        crate::reading::lemma_read_vu64_progress(data, i3);
        assert(r1 == r2);
    } else if i == 1 && i <= data.len() {
        assert(data2[0] == data[0]) by {
            assert(data2.subrange(0, data.len() as int)[0] == data[0]);
        }
    }
}

proof fn lemma_ext_scan(data: Seq<u8>, data2: Seq<u8>, s: State, p: int, c: u8)
    requires
        is_prefix(data, data2),
        !(scan_arcs(data, s, p, c) is Crash),
    ensures
        scan_arcs(data2, s, p, c) == scan_arcs(data, s, p, c),
    decreases p,
{
    if s._in != c && !(s._in > c) && !has_flag(s.flag, crate::state::BIT_LAST_STATE) {
        lemma_ext_read_state(data, data2, p);
        lemma_read_state_progress(data, p);
        match read_state_at(data, p) {
            Step::Done((s2, p2)) => {
                lemma_ext_scan(data, data2, s2, p2, c);
            },
            _ => {},
        }
    }
}

proof fn lemma_ext_bisect(data: Seq<u8>, data2: Seq<u8>, start: int, c: u8, low: u64, high: u64)
    requires
        is_prefix(data, data2),
        !(bisect(data, start, c, low, high) is Crash),
    ensures
        bisect(data2, start, c, low, high) == bisect(data, start, c, low, high),
    decreases high - low + 1,
{
    if low <= high && low + high <= u64::MAX {
        let mid = ((low + high) as u64) >> 1u64;
        assert(mid <= high && mid >= low) by (bit_vector)
            requires
                low <= high,
                low + high <= u64::MAX,
                mid == ((low + high) as u64) >> 1u64,
        ;
        if !(mid * 5 > u64::MAX || (((mid * 5) as u64) as usize) as int > start) {
            let pos = start - ((((mid * 5) as u64) as usize) as int);
            if 1 <= pos <= data.len() {
                assert(data2[pos - 1] == data[pos - 1]) by {
                    assert(data2.subrange(0, data.len() as int)[pos - 1] == data[pos - 1]);
                }
                let label = data[pos - 1];
                if label < c {
                    lemma_ext_bisect(data, data2, start, c, (mid + 1) as u64, high);
                } else if label > c {
                    if mid != 0 {
                        lemma_ext_bisect(data, data2, start, c, low, (mid - 1) as u64);
                    }
                } else {
                    if pos - 1 >= 4 {
                        lemma_ext_bytes_before(data, data2, pos - 1, 4);
                        match read_be_u32_at(data, pos - 1) {
                            Step::Done((a, _p2)) => {
                                lemma_ext_read_state(data, data2, (a as usize) as int);
                            },
                            _ => {},
                        }
                    }
                }
            }
        }
    }
}

proof fn lemma_ext_find(data: Seq<u8>, data2: Seq<u8>, st: State, i: int, c: u8)
    requires
        is_prefix(data, data2),
        !(find_target(data, st, i, c) is Crash),
    ensures
        find_target(data2, st, i, c) == find_target(data, st, i, c),
{
    let p0 = if st.target > 0 { (st.target as usize) as int } else { i };
    lemma_ext_read_state(data, data2, p0);
    match read_next_state_at(data, st.target, i) {
        Step::Done((s, p1)) => {
            if has_flag(s.flag, crate::state::ARCS_AS_FIXED_ARRAY) {
                if s.final_out != 0 {
                    lemma_ext_bisect(data, data2, p1, c, 0, (s.final_out - 1) as u64);
                }
            } else {
                lemma_ext_scan(data, data2, s, p1, c);
            }
        },
        _ => {},
    }
}

/// A lookup that succeeds in some bytes gives the same in any bytes that extend
/// them: it only reads bytes before the positions it stands at.
pub proof fn lemma_ext_walk(data: Seq<u8>, data2: Seq<u8>, st: State, i: int, key: Seq<u8>, j: int, o: u64)
    requires
        is_prefix(data, data2),
        !(get_walk(data, st, i, key, j, o) is Crash),
    ensures
        get_walk(data2, st, i, key, j, o) == get_walk(data, st, i, key, j, o),
    decreases key.len() - j,
{
    if j < key.len() && st.target != 0 {
        lemma_ext_find(data, data2, st, i, key[j]);
        match find_target(data, st, i, key[j]) {
            Step::Done((s2, p2)) => {
                if o + s2.out <= u64::MAX {
                    lemma_ext_walk(data, data2, s2, p2, key, j + 1, (o + s2.out) as u64);
                }
            },
            _ => {},
        }
    }
}

/// A lookup below an arc depends on the arc only through its target, its
/// finality and its final output; the position shows only in where it ends.
pub proof fn lemma_walk_congruent(data: Seq<u8>, st1: State, i1: int, st2: State, i2: int, key: Seq<u8>, j: int, o: u64)
    requires
        st1.target == st2.target,
        st1.final_out == st2.final_out,
        has_flag(st1.flag, BIT_FINAL_STATE) == has_flag(st2.flag, BIT_FINAL_STATE),
    ensures
        step_value(get_walk(data, st1, i1, key, j, o)) == step_value(get_walk(data, st2, i2, key, j, o)),
{
    if j < key.len() && st1.target != 0 {
        assert(find_target(data, st1, i1, key[j]) == find_target(data, st2, i2, key[j]));
    }
}

} // verus!
