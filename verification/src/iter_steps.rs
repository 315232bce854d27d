use vstd::prelude::*;
use crate::fst::climb;
use crate::fst::do_next_spec;
use crate::fst::push_first_spec;
use crate::fst::can_step;
use crate::fst::next_step;
use crate::fst::grow_spec;
use crate::fst::IterV;
use crate::iter_laws::final_ok;
use crate::iter_laws::lemma_level;
use crate::iter_laws::lemma_adjacent_paths;
use crate::iter_laws::lemma_end_paths;
use crate::iter_laws::lemma_level_first;
use crate::iter_laws::lemma_level_flags;
use crate::iter_laws::lemma_level_next;
use crate::iter_laws::path_width;
use crate::build_laws::lcp;
use crate::fst::start_iter;
use crate::iter_laws::path_arc;
use crate::iter_laws::path_addr;
use crate::iter_laws::path_index;
use crate::iter_laws::path_out_sum;
use crate::trie_laws::Placed;
use crate::reading::read_first_target;
use crate::state::fresh_state;
use crate::state::state_with_target;
use crate::state::BIT_FINAL_STATE;
use crate::reading::Step;
use crate::state::has_flag;
use crate::state::State;
use crate::state::BIT_LAST_STATE;
use crate::trie_laws::is_key;
use crate::trie_laws::longer_key;
use crate::build_laws::diverges_before;
use crate::iter_laws::lemma_adjacent_keys;
use crate::iter_laws::lemma_extend_paths;
use crate::iter_laws::lemma_end_keys;
use crate::laws::keys_increasing;
use crate::build_laws::key_before;
use crate::build_laws::prefix_before;
use crate::trie_laws::extends;

verus! {

/// Climbing from depth `u` stops at depth `lo` when the arcs above `lo` up to `u`
/// are all marked last and the arc at `lo` is not.
pub proof fn lemma_climb_to(states: Seq<State>, u: int, lo: int)
    requires
        1 <= lo <= u < states.len(),
        forall|w: int| lo < w <= u ==> has_flag(#[trigger] states[w].flag, BIT_LAST_STATE),
        !has_flag(states[lo].flag, BIT_LAST_STATE),
    ensures
        climb(states, u) == lo,
    decreases u,
{
    if u > lo {
        lemma_climb_to(states, u - 1, lo);
    }
}

/// Climbing from depth `u` ends the iteration when every arc from depth 1 up to
/// `u` is marked last.
pub proof fn lemma_climb_out(states: Seq<State>, u: int)
    requires
        1 <= u < states.len(),
        forall|w: int| 1 <= w <= u ==> has_flag(#[trigger] states[w].flag, BIT_LAST_STATE),
    ensures
        climb(states, u) == 0,
    decreases u,
{
    if u > 1 {
        lemma_climb_out(states, u - 1);
    }
}

/// More fuel does not change a descent that ends.
pub proof fn lemma_push_fuel(data: Seq<u8>, v: IterV, f1: nat, f2: nat)
    requires
        f1 <= f2,
        !(push_first_spec(data, v, f1) is Crash),
    ensures
        push_first_spec(data, v, f2) == push_first_spec(data, v, f1),
    decreases f1,
{
    if f1 > 0 && (1 <= v.upto < v.states.len() && v.upto < v.out.len() && v.upto < v.input.len()) && v.upto + 2 <= usize::MAX {
        let st = v.states[v.upto];
        let o = v.out[v.upto - 1] + st.out;
        if o <= u64::MAX && st._in != 255 {
            let out2 = v.out.update(v.upto, o as u64);
            let v2 = crate::fst::grow_spec(IterV { out: out2, input: v.input.update(v.upto, st._in), upto: v.upto + 1, ..v });
            match crate::reading::read_first_target(data, v2.states[v2.upto - 1], v2.states[v2.upto], v2.pos) {
                Step::Done((s, p)) => {
                    lemma_push_fuel(data, IterV { states: v2.states.update(v2.upto, s), pos: p, ..v2 }, (f1 - 1) as nat,
                        (f2 - 1) as nat);
                },
                _ => {},
            }
        }
    }
}

/// More fuel does not change an iteration step that ends.
pub proof fn lemma_step_fuel(data: Seq<u8>, v: IterV, f1: nat, f2: nat)
    requires
        f1 <= f2,
        !(do_next_spec(data, v, f1) is Crash),
    ensures
        do_next_spec(data, v, f2) == do_next_spec(data, v, f1),
{
    if v.upto == 0 {
        match crate::reading::read_first_target(data, v.states[0], v.states[1], v.pos) {
            Step::Done((s, p)) => {
                lemma_push_fuel(data, IterV { upto: 1, states: v.states.update(1, s), pos: p, ..v }, f1, f2);
            },
            _ => {},
        }
    } else {
        let u = climb(v.states, v.upto);
        if u != 0 {
            match crate::reading::next_arc(data, v.states[u], v.pos) {
                Step::Done((s, p)) => {
                    lemma_push_fuel(data, IterV { upto: u, states: v.states.update(u, s), pos: p, ..v }, f1, f2);
                },
                _ => {},
            }
        }
    }
}

/// An iteration step that ends with some fuel is the next step, and can be taken.
pub proof fn lemma_next_step(data: Seq<u8>, v: IterV, f: nat)
    requires
        !(do_next_spec(data, v, f) is Crash),
    ensures
        can_step(data, v),
        next_step(data, v) == do_next_spec(data, v, f),
{
    assert(!(do_next_spec(data, v, f) is Crash));
    let fc = choose|g: nat| !(#[trigger] do_next_spec(data, v, g) is Crash);
    if fc <= f {
        lemma_step_fuel(data, v, fc, f);
    } else {
        lemma_step_fuel(data, v, f, fc);
    }
}

/// The iteration stands at `key` with `value`: one past the depth of its last
/// byte, with the arcs of its path above, its bytes, the running sums of outputs,
/// and the pseudo-arc that ends a key at the bottom, marked last unless the key's
/// last arc leads on, and then leading to where it does.
pub open spec fn at_key(m: Map<u64, Placed>, data: Seq<u8>, v: IterV, key: Seq<u8>, value: u64) -> bool {
    let root = data.len() as u64;
    let l = key.len() as int;
    &&& v.upto == l + 1
    &&& v.states.len() > v.upto
    &&& v.out.len() > v.upto
    &&& v.input.len() > v.upto
    &&& v.states[0] == fresh_state(0, 0)
    &&& v.out[0] == 0
    &&& forall|w: int| 1 <= w <= l ==> #[trigger] v.states[w] == path_arc(m, root, key, (w - 1) as nat)
    &&& forall|w: int| 1 <= w <= l ==> #[trigger] v.input[w] == key[w - 1]
    &&& forall|w: int| 1 <= w <= l ==> #[trigger] v.out[w] == path_out_sum(m, root, key, w as nat)
    &&& v.states[l + 1]._in == 255
    &&& has_flag(v.states[l + 1].flag, BIT_LAST_STATE) == (path_arc(m, root, key, (l - 1) as nat).target == 0)
    &&& path_arc(m, root, key, (l - 1) as nat).target != 0
        ==> v.states[l + 1].next_state == path_arc(m, root, key, (l - 1) as nat).target
    &&& v.out[l + 1] == value
}

/// The iteration is about to descend from depth `t + 1`, whose arc is the arc of
/// `key`'s path at level `t`, with the levels above in place.
pub open spec fn descent_ready(m: Map<u64, Placed>, data: Seq<u8>, v: IterV, key: Seq<u8>, t: int) -> bool {
    let root = data.len() as u64;
    &&& v.upto == t + 1
    &&& v.states.len() > v.upto
    &&& v.out.len() > v.upto
    &&& v.input.len() > v.upto
    &&& v.states[0] == fresh_state(0, 0)
    &&& v.out[0] == 0
    &&& forall|w: int| 1 <= w <= t + 1 ==> #[trigger] v.states[w] == path_arc(m, root, key, (w - 1) as nat)
    &&& forall|w: int| 1 <= w <= t ==> #[trigger] v.input[w] == key[w - 1]
    &&& forall|w: int| 1 <= w <= t ==> #[trigger] v.out[w] == path_out_sum(m, root, key, w as nat)
}

/// The facts about a key that descending along its path relies on: its bytes
/// are not 255, its length leaves room for the depth, no partial sum of outputs
/// overflows, and its value is the sum with the last arc's final output.
pub open spec fn key_ready(m: Map<u64, Placed>, data: Seq<u8>, key: Seq<u8>, value: u64) -> bool {
    let root = data.len() as u64;
    &&& key.len() >= 1
    &&& key.len() + 3 <= usize::MAX
    &&& forall|s: int| 0 <= s < key.len() ==> #[trigger] key[s] != 255
    &&& forall|s: nat| s <= key.len() ==> #[trigger] path_out_sum(m, root, key, s) <= u64::MAX
    &&& value == path_out_sum(m, root, key, key.len() as nat) + path_arc(m, root, key, (key.len() - 1) as nat).final_out
}

/// The last step of a descent: the key's last arc ends it, so the pseudo-arc that
/// ends a key follows and the descent stops there.
proof fn lemma_descend_end(m: Map<u64, Placed>, data: Seq<u8>, keys: Seq<Seq<u8>>, i: int, v: IterV, fuel: nat, value: u64)
    requires
        final_ok(m, data, keys),
        0 <= i < keys.len(),
        key_ready(m, data, keys[i], value),
        descent_ready(m, data, v, keys[i], keys[i].len() - 1),
        fuel >= 2,
    ensures
        push_first_spec(data, v, fuel) matches Step::Done(v2) && at_key(m, data, v2, keys[i], value),
{
    let root = data.len() as u64;
    let key = keys[i];
    let l = key.len() as int;
    let t = l - 1;
    lemma_level(m, data, keys, i, t as nat, state_with_target(fresh_state(0, 0), path_addr(m, root, key, t as nat)), 0);
    let st = v.states[t + 1];
    assert(st == path_arc(m, root, key, t as nat));
    let ot = v.out[t];
    assert(ot == path_out_sum(m, root, key, t as nat)) by {
        if t > 0 {
            assert(v.out[t] == path_out_sum(m, root, key, t as nat));
        }
    }
    let o = ot + st.out;
    assert(o == path_out_sum(m, root, key, (t + 1) as nat));
    assert(o <= u64::MAX);
    assert(st._in == key[t]);
    let out2 = v.out.update(t + 1, o as u64);
    let v1 = IterV { out: out2, input: v.input.update(t + 1, st._in), upto: t + 2, ..v };
    let v2 = grow_spec(v1);
    assert(v2.states[t + 1] == st);
    let pseudo = State {
        flag: if st.target <= 0 { BIT_FINAL_STATE | BIT_LAST_STATE } else { BIT_FINAL_STATE },
        _in: 255,
        out: st.final_out,
        final_out: v2.states[t + 2].final_out,
        target: 0,
        next_state: if st.target <= 0 { v2.states[t + 2].next_state } else { st.target },
        is_final: v2.states[t + 2].is_final,
    };
    assert(has_flag(st.flag, BIT_FINAL_STATE));
    assert(read_first_target(data, v2.states[v2.upto - 1], v2.states[v2.upto], v2.pos) == Step::Done((pseudo, v2.pos)));
    let v3 = IterV { states: v2.states.update(v2.upto, pseudo), pos: v2.pos, ..v2 };
    assert(push_first_spec(data, v, fuel) == push_first_spec(data, v3, (fuel - 1) as nat));
    assert(v3.out[l] == o);
    let value2 = v3.out[v3.upto - 1] + pseudo.out;
    assert(value2 == value);
    let v4 = IterV { out: v3.out.update(v3.upto, value), ..v3 };
    assert(push_first_spec(data, v3, (fuel - 1) as nat) == Step::Done(v4));
    assert(has_flag(BIT_FINAL_STATE | BIT_LAST_STATE, BIT_LAST_STATE)) by (bit_vector);
    assert(!has_flag(BIT_FINAL_STATE, BIT_LAST_STATE)) by (bit_vector);
    assert forall|w: int| 1 <= w <= l implies #[trigger] v4.states[w] == path_arc(m, root, key, (w - 1) as nat) by {
        assert(v.states[w] == path_arc(m, root, key, (w - 1) as nat));
    }
    assert forall|w: int| 1 <= w <= l implies #[trigger] v4.input[w] == key[w - 1] by {
        if w < l {
            assert(v.input[w] == key[w - 1]);
        }
    }
    assert forall|w: int| 1 <= w <= l implies #[trigger] v4.out[w] == path_out_sum(m, root, key, w as nat) by {
        if w < l {
            assert(v.out[w] == path_out_sum(m, root, key, w as nat));
        }
    }
}

/// Descending from level `t` of a key's path, whose arcs below are first arcs,
/// ends at the key, with its value.
pub proof fn lemma_descend(m: Map<u64, Placed>, data: Seq<u8>, keys: Seq<Seq<u8>>, i: int, t: int, v: IterV, fuel: nat,
    value: u64)
    requires
        final_ok(m, data, keys),
        0 <= i < keys.len(),
        key_ready(m, data, keys[i], value),
        0 <= t < keys[i].len(),
        descent_ready(m, data, v, keys[i], t),
        forall|s: nat| t < s < keys[i].len() ==> #[trigger] path_index(m, data.len() as u64, keys[i], s) == 0,
        forall|s: int| t < s < keys[i].len() ==> !is_key(keys, #[trigger] keys[i].subrange(0, s)),
        fuel >= keys[i].len() - t + 1,
    ensures
        push_first_spec(data, v, fuel) matches Step::Done(v2) && at_key(m, data, v2, keys[i], value),
    decreases keys[i].len() - t,
{
    let root = data.len() as u64;
    let key = keys[i];
    let l = key.len() as int;
    if t == l - 1 {
        lemma_descend_end(m, data, keys, i, v, fuel, value);
    } else {
        lemma_level(m, data, keys, i, t as nat, state_with_target(fresh_state(0, 0), path_addr(m, root, key, t as nat)), 0);
        let st = v.states[t + 1];
        assert(st == path_arc(m, root, key, t as nat));
        assert(!is_key(keys, key.subrange(0, t + 1)));
        assert(!has_flag(st.flag, BIT_FINAL_STATE));
        let ot = v.out[t];
        assert(ot == path_out_sum(m, root, key, t as nat)) by {
            if t > 0 {
                assert(v.out[t] == path_out_sum(m, root, key, t as nat));
            }
        }
        let o = ot + st.out;
        assert(o == path_out_sum(m, root, key, (t + 1) as nat));
        assert(o <= u64::MAX);
        let out2 = v.out.update(t + 1, o as u64);
        let v1 = IterV { out: out2, input: v.input.update(t + 1, st._in), upto: t + 2, ..v };
        let v2 = grow_spec(v1);
        assert(v2.states[t + 1] == st);
        lemma_level_first(m, data, keys, i, (t + 1) as nat, st, v2.pos);
        let s3 = path_arc(m, root, key, (t + 1) as nat);
        match read_first_target(data, v2.states[v2.upto - 1], v2.states[v2.upto], v2.pos) {
            Step::Done((s, p)) => {
                assert(s == s3);
                let v3 = IterV { states: v2.states.update(v2.upto, s), pos: p, ..v2 };
                assert(push_first_spec(data, v, fuel) == push_first_spec(data, v3, (fuel - 1) as nat));
                assert forall|w: int| 1 <= w <= t + 2 implies #[trigger] v3.states[w] == path_arc(m, root, key, (w - 1) as nat) by {
                    if w <= t + 1 {
                        assert(v.states[w] == path_arc(m, root, key, (w - 1) as nat));
                    }
                }
                assert forall|w: int| 1 <= w <= t + 1 implies #[trigger] v3.input[w] == key[w - 1] by {
                    if w <= t {
                        assert(v.input[w] == key[w - 1]);
                    }
                }
                assert forall|w: int| 1 <= w <= t + 1 implies #[trigger] v3.out[w] == path_out_sum(m, root, key, w as nat) by {
                    if w <= t {
                        assert(v.out[w] == path_out_sum(m, root, key, w as nat));
                    }
                }
                assert(descent_ready(m, data, v3, key, t + 1));
                lemma_descend(m, data, keys, i, t + 1, v3, (fuel - 1) as nat, value);
            },
            _ => {},
        }
    }
}

/// Keys whose paths agree on their first `w` arcs have the same sums there.
pub proof fn lemma_out_sum_agree(m: Map<u64, Placed>, root: u64, k1: Seq<u8>, k2: Seq<u8>, w: nat)
    requires
        forall|s: nat| s < w ==> #[trigger] path_arc(m, root, k1, s) == path_arc(m, root, k2, s),
    ensures
        path_out_sum(m, root, k1, w) == path_out_sum(m, root, k2, w),
    decreases w,
{
    if w > 0 {
        lemma_out_sum_agree(m, root, k1, k2, (w - 1) as nat);
        assert(path_arc(m, root, k1, (w - 1) as nat) == path_arc(m, root, k2, (w - 1) as nat));
    }
}

/// The first step of an iteration descends from the root along first arcs to
/// the first key.
pub proof fn lemma_iter_start(m: Map<u64, Placed>, data: Seq<u8>, keys: Seq<Seq<u8>>, value: u64)
    requires
        final_ok(m, data, keys),
        keys.len() >= 1,
        key_ready(m, data, keys[0], value),
    ensures
        do_next_spec(data, start_iter(data), (keys[0].len() + 1) as nat) matches Step::Done(v2)
            && at_key(m, data, v2, keys[0], value),
{
    let root = data.len() as u64;
    let v = start_iter(data);
    assert(data.len() <= u32::MAX) by {
        reveal(final_ok);
    }
    assert(keys_increasing(keys)) by {
        reveal(final_ok);
    }
    lemma_end_keys(keys);
    lemma_end_paths(m, data, keys);
    assert(path_index(m, root, keys[0], 0) == 0);
    assert(v.states[0] == fresh_state(0, 0));
    lemma_level_first(m, data, keys, 0, 0, v.states[0], v.pos);
    assert(!has_flag(0u8, BIT_FINAL_STATE)) by (bit_vector);
    match read_first_target(data, v.states[0], v.states[1], v.pos) {
        Step::Done((s, p)) => {
            let v1 = IterV { upto: 1, states: v.states.update(1, s), pos: p, ..v };
            assert(descent_ready(m, data, v1, keys[0], 0));
            lemma_descend(m, data, keys, 0, 0, v1, (keys[0].len() + 1) as nat, value);
        },
        _ => {},
    }
}

/// From one key, the next step of an iteration climbs to where the next key
/// parts, takes the next arc there and descends along first arcs to that key.
proof fn lemma_step_across(m: Map<u64, Placed>, data: Seq<u8>, keys: Seq<Seq<u8>>, a: int, v: IterV, va: u64, vb: u64)
    requires
        final_ok(m, data, keys),
        keys_increasing(keys),
        0 <= a,
        a + 1 < keys.len(),
        diverges_before(keys[a], keys[a + 1]),
        at_key(m, data, v, keys[a], va),
        key_ready(m, data, keys[a], va),
        key_ready(m, data, keys[a + 1], vb),
    ensures
        do_next_spec(data, v, (keys[a + 1].len() + 1) as nat) matches Step::Done(v2) && at_key(m, data, v2, keys[a + 1], vb),
{
    let root = data.len() as u64;
    let k1 = keys[a];
    let k2 = keys[a + 1];
    let l1 = k1.len() as int;
    lemma_adjacent_paths(m, data, keys, a);
    lemma_adjacent_keys(keys, a);
    let d = lcp(k1, k2);
    lemma_level(m, data, keys, a, (l1 - 1) as nat,
        state_with_target(fresh_state(0, 0), path_addr(m, root, k1, (l1 - 1) as nat)), 0);
    assert(k1.subrange(0, l1) =~= k1);
    assert forall|w: int| d + 1 < w <= l1 + 1 implies has_flag(#[trigger] v.states[w].flag, BIT_LAST_STATE) by {
        if w <= l1 {
            assert(v.states[w] == path_arc(m, root, k1, (w - 1) as nat));
            assert(path_index(m, root, k1, (w - 1) as nat) == path_width(m, root, k1, (w - 1) as nat) - 1);
            lemma_level_flags(m, data, keys, a, (w - 1) as nat);
        }
    }
    assert(v.states[d + 1] == path_arc(m, root, k1, d as nat));
    lemma_level_flags(m, data, keys, a, d as nat);
    lemma_level_flags(m, data, keys, a + 1, d as nat);
    assert(path_addr(m, root, k1, d as nat) == path_addr(m, root, k2, d as nat));
    lemma_climb_to(v.states, l1 + 1, d + 1);
    lemma_level(m, data, keys, a, d as nat, state_with_target(fresh_state(0, 0), path_addr(m, root, k1, d as nat)), 0);
    assert(v.states[d + 1]._in != 255);
    assert(crate::reading::next_arc(data, v.states[d + 1], v.pos)
        == crate::reading::read_next_state_at(data, v.states[d + 1].next_state, v.pos));
    lemma_level_next(m, data, keys, a, a + 1, d as nat, v.pos);
    match crate::reading::read_next_state_at(data, v.states[d + 1].next_state, v.pos) {
        Step::Done((s, p)) => {
            let v1 = IterV { upto: d + 1, states: v.states.update(d + 1, s), pos: p, ..v };
            assert forall|w: int| 1 <= w <= d + 1 implies #[trigger] v1.states[w] == path_arc(m, root, k2, (w - 1) as nat) by {
                if w <= d {
                    assert(v.states[w] == path_arc(m, root, k1, (w - 1) as nat));
                    assert(path_arc(m, root, k1, (w - 1) as nat) == path_arc(m, root, k2, (w - 1) as nat));
                }
            }
            assert forall|w: int| 1 <= w <= d implies #[trigger] v1.input[w] == k2[w - 1] by {
                assert(v.input[w] == k1[w - 1]);
            }
            assert forall|w: int| 1 <= w <= d implies #[trigger] v1.out[w] == path_out_sum(m, root, k2, w as nat) by {
                assert(v.out[w] == path_out_sum(m, root, k1, w as nat));
                assert forall|s2: nat| s2 < w implies #[trigger] path_arc(m, root, k1, s2) == path_arc(m, root, k2, s2) by {
                }
                lemma_out_sum_agree(m, root, k1, k2, w as nat);
            }
            assert(descent_ready(m, data, v1, k2, d));
            lemma_descend(m, data, keys, a + 1, d, v1, (k2.len() + 1) as nat, vb);
        },
        _ => {},
    }
}

/// From a key that is a proper prefix of the next key, the next step of an
/// iteration follows the pseudo-arc that ends it down to the node below and
/// descends along first arcs to the next key.
proof fn lemma_step_down(m: Map<u64, Placed>, data: Seq<u8>, keys: Seq<Seq<u8>>, a: int, v: IterV, va: u64, vb: u64)
    requires
        final_ok(m, data, keys),
        keys_increasing(keys),
        0 <= a,
        a + 1 < keys.len(),
        prefix_before(keys[a], keys[a + 1]),
        at_key(m, data, v, keys[a], va),
        key_ready(m, data, keys[a], va),
        key_ready(m, data, keys[a + 1], vb),
    ensures
        do_next_spec(data, v, (keys[a + 1].len() + 1) as nat) matches Step::Done(v2) && at_key(m, data, v2, keys[a + 1], vb),
{
    let root = data.len() as u64;
    let k1 = keys[a];
    let k2 = keys[a + 1];
    let l1 = k1.len() as int;
    lemma_extend_paths(m, data, keys, a);
    assert(k2.subrange(0, l1) =~= k1);
    assert(extends(k2, k1));
    assert(longer_key(keys, k1));
    assert(k1.subrange(0, l1) =~= k1);
    lemma_level(m, data, keys, a, (l1 - 1) as nat,
        state_with_target(fresh_state(0, 0), path_addr(m, root, k1, (l1 - 1) as nat)), 0);
    let target = path_arc(m, root, k1, (l1 - 1) as nat).target;
    assert(target == path_addr(m, root, k2, l1 as nat));
    let pseudo = v.states[l1 + 1];
    assert(!has_flag(pseudo.flag, BIT_LAST_STATE));
    assert(pseudo.next_state == target);
    lemma_climb_to(v.states, l1 + 1, l1 + 1);
    let follow = state_with_target(pseudo, pseudo.next_state);
    assert(crate::reading::next_arc(data, pseudo, v.pos) == crate::reading::read_from_follow(data, follow, v.pos));
    lemma_level_first(m, data, keys, a + 1, l1 as nat, follow, v.pos);
    match crate::reading::read_from_follow(data, follow, v.pos) {
        Step::Done((s, p)) => {
            let v1 = IterV { upto: l1 + 1, states: v.states.update(l1 + 1, s), pos: p, ..v };
            assert forall|w: int| 1 <= w <= l1 + 1 implies #[trigger] v1.states[w] == path_arc(m, root, k2, (w - 1) as nat) by {
                if w <= l1 {
                    assert(v.states[w] == path_arc(m, root, k1, (w - 1) as nat));
                    assert(path_arc(m, root, k1, (w - 1) as nat) == path_arc(m, root, k2, (w - 1) as nat));
                }
            }
            assert forall|w: int| 1 <= w <= l1 implies #[trigger] v1.input[w] == k2[w - 1] by {
                assert(v.input[w] == k1[w - 1]);
            }
            assert forall|w: int| 1 <= w <= l1 implies #[trigger] v1.out[w] == path_out_sum(m, root, k2, w as nat) by {
                assert(v.out[w] == path_out_sum(m, root, k1, w as nat));
                assert forall|s2: nat| s2 < w implies #[trigger] path_arc(m, root, k1, s2) == path_arc(m, root, k2, s2) by {
                }
                lemma_out_sum_agree(m, root, k1, k2, w as nat);
            }
            assert(descent_ready(m, data, v1, k2, l1));
            lemma_descend(m, data, keys, a + 1, l1, v1, (k2.len() + 1) as nat, vb);
        },
        _ => {},
    }
}

/// From one key, the next step of an iteration reaches the next key, with its value.
pub proof fn lemma_iter_step(m: Map<u64, Placed>, data: Seq<u8>, keys: Seq<Seq<u8>>, a: int, v: IterV, va: u64, vb: u64)
    requires
        final_ok(m, data, keys),
        0 <= a,
        a + 1 < keys.len(),
        at_key(m, data, v, keys[a], va),
        key_ready(m, data, keys[a], va),
        key_ready(m, data, keys[a + 1], vb),
    ensures
        do_next_spec(data, v, (keys[a + 1].len() + 1) as nat) matches Step::Done(v2) && at_key(m, data, v2, keys[a + 1], vb),
{
    assert(keys_increasing(keys)) by {
        reveal(final_ok);
    }
    assert(key_before(keys[a], keys[a + 1]));
    if diverges_before(keys[a], keys[a + 1]) {
        lemma_step_across(m, data, keys, a, v, va, vb);
    } else {
        lemma_step_down(m, data, keys, a, v, va, vb);
    }
}

/// From the last key, the next step of an iteration climbs out: the iteration is over.
pub proof fn lemma_iter_end(m: Map<u64, Placed>, data: Seq<u8>, keys: Seq<Seq<u8>>, v: IterV, vl: u64, fuel: nat)
    requires
        final_ok(m, data, keys),
        keys.len() >= 1,
        keys.last().len() >= 1,
        at_key(m, data, v, keys.last(), vl),
    ensures
        do_next_spec(data, v, fuel) == Step::Done(IterV { upto: 0, ..v }),
{
    let root = data.len() as u64;
    let n = keys.len() as int;
    let k = keys.last();
    let l = k.len() as int;
    assert(keys_increasing(keys)) by {
        reveal(final_ok);
    }
    lemma_end_keys(keys);
    lemma_end_paths(m, data, keys);
    assert(keys[n - 1] == k);
    lemma_level(m, data, keys, n - 1, (l - 1) as nat,
        state_with_target(fresh_state(0, 0), path_addr(m, root, k, (l - 1) as nat)), 0);
    assert(k.subrange(0, l) =~= k);
    assert forall|w: int| 1 <= w <= l + 1 implies has_flag(#[trigger] v.states[w].flag, BIT_LAST_STATE) by {
        if w <= l {
            assert(v.states[w] == path_arc(m, root, k, (w - 1) as nat));
            assert(path_index(m, root, k, (w - 1) as nat) == path_width(m, root, k, (w - 1) as nat) - 1);
            lemma_level_flags(m, data, keys, n - 1, (w - 1) as nat);
        }
    }
    lemma_climb_out(v.states, l + 1);
}

} // verus!
