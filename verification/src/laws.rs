use vstd::prelude::*;
use crate::build_laws::arc_view;
use crate::build_laws::below_last;
use crate::build_laws::below_side;
use crate::build_laws::build_inv;
use crate::build_laws::chain_ok;
use crate::build_laws::lcp;
use crate::build_laws::lemma_arc_view_final;
use crate::build_laws::lemma_chain;
use crate::build_laws::lemma_enter_node;
use crate::build_laws::lemma_freeze_extends;
use crate::build_laws::lemma_lcp;
use crate::build_laws::lemma_node_extends;
use crate::build_laws::lemma_path_sum_agree;
use crate::build_laws::path_node_ok;
use crate::build_laws::path_sum;
use crate::build_laws::walk_below;
use crate::build_step::lemma_inv_stack;
use crate::build_step::lemma_lcp_self;
use crate::build_step::lemma_walk_ext;
use crate::build_step::lemma_add_first;
use crate::build_step::lemma_add_next;
use crate::build_laws::key_before;
use crate::build_step::start_state;
use crate::builder::add_ok;
use crate::builder::add_spec;
use crate::builder::finish_spec;
use crate::builder::freeze_loop;
use crate::builder::BuilderV;
use crate::format::encode_node;
use crate::node_laws::is_prefix;
use crate::node_laws::lemma_node_shape;
use crate::node_laws::sorted_labels;
use crate::reading::spec_get;
use crate::state::fresh_state;
use crate::state::last_in_of;
use crate::state::last_out_of;
use crate::state::map_last;
use crate::state::state_with_target;
use crate::walk_laws::lemma_walk_congruent;
use crate::walk_laws::step_value;
use crate::fst::can_step;
use crate::fst::iter_wf;
use crate::fst::next_step;
use crate::fst::start_iter;
use crate::fst::IterV;
use crate::iter_laws::final_map;
use crate::iter_laws::final_ok;
use crate::iter_laws::lemma_final_map;
use crate::iter_laws::lemma_get_path;
use crate::iter_laws::lemma_walk_absent;
use crate::error::ReadErr;
use crate::iter_steps::at_key;
use crate::iter_steps::key_ready;
use crate::iter_steps::lemma_iter_end;
use crate::iter_steps::lemma_iter_start;
use crate::iter_steps::lemma_iter_step;
use crate::iter_steps::lemma_next_step;
use crate::reading::Step;

verus! {

/// The nodes below the root of the last key's path, ready for the final freeze.
proof fn lemma_finish_chain(b: BuilderV, keys: Seq<Seq<u8>>, vals: Seq<u64>)
    requires
        build_inv(b, keys, vals),
    ensures
        chain_ok(b.stack.drop_last(), 0, keys.last()),
        forall|t: int| 0 <= t <= keys.last().len() ==> path_sum(b.stack.drop_last(), t) == path_sum(b.stack, t),
{
    let ns = b.stack;
    let nsd = ns.drop_last();
    let last = keys.last();
    let q = last.len() as int;
    lemma_inv_stack(b, keys, vals);
    assert forall|t: int| 0 <= t < q implies last_out_of(#[trigger] nsd[t]) == last_out_of(ns[t]) by {
        assert(nsd[t] == ns[t]);
    }
    assert forall|t: int| 0 <= t <= q implies path_sum(nsd, t) == path_sum(ns, t) by {
        lemma_path_sum_agree(nsd, ns, t);
    }
    assert forall|i: int| 0 < i < nsd.len() implies (#[trigger] nsd[i]).states.len() > 0 && sorted_labels(nsd[i].states)
        && last_in_of(nsd[i]) == last[i] by {
        assert(nsd[i] == ns[i]);
        assert(path_node_ok(ns[i], last[i]));
        reveal(path_node_ok);
    }
    assert forall|i: int, j: int| 0 <= i < nsd.len() && 0 <= j < nsd[i].states.len()
        implies path_sum(nsd, i) + (#[trigger] nsd[i].states[j]).out <= u64::MAX by {
        assert(nsd[i] == ns[i]);
        assert(path_sum(ns, i) + ns[i].states[j].out <= u64::MAX);
    }
}

/// After the root is compiled, every key added is read back with its value.
#[verifier::rlimit(30)]
proof fn lemma_finish_found(b: BuilderV, keys: Seq<Seq<u8>>, vals: Seq<u64>, m: int)
    requires
        build_inv(b, keys, vals),
        finish_spec(b).enc.bytes.len() <= u32::MAX,
        0 <= m < keys.len(),
    ensures
        step_value(spec_get(finish_spec(b).enc.bytes, keys[m])) == Some(vals[m]),
{
    let n = keys.len() as int;
    let ns = b.stack;
    let nsd = ns.drop_last();
    let last = keys.last();
    let q = last.len() as int;
    let km = keys[m];
    let vm = vals[m];
    let old = b.enc.bytes;
    lemma_inv_stack(b, keys, vals);
    lemma_finish_chain(b, keys, vals);
    let fl = freeze_loop(nsd, b.enc, 0, 0);
    assert(freeze_loop(ns, b.enc, 0, -1i64) == fl);
    lemma_freeze_extends(nsd, b.enc, 0, 0);
    let e2 = fl.1;
    let a = fl.2;
    let root = map_last(ns[0], state_with_target(ns[0].states.last(), a as u64));
    assert(nsd[0] == ns[0]);
    assert(finish_spec(b).enc == encode_node(e2, root));
    let data = encode_node(e2, root).bytes;
    lemma_node_extends(e2, root);
    crate::node_laws::lemma_prefix_trans(old, e2.bytes, data);
    assert(is_prefix(data, data)) by {
        assert(data.subrange(0, data.len() as int) =~= data);
    }
    let d = lcp(km, last);
    lemma_lcp(km, last);
    lemma_lcp_self(last);
    let vl = vals[n - 1];
    let st = state_with_target(nsd[q - 1].states.last(), 0);
    assert(nsd[q - 1] == ns[q - 1]);
    assert(path_node_ok(ns[q - 1], last[q - 1]));
    assert(st.final_out == 0) by {
        reveal(path_node_ok);
    }
    lemma_arc_view_final(st);
    assert(walk_below(data, st, last, q, path_sum(nsd, q) as u64) == Some(vl));
    lemma_chain(nsd, b.enc, 0, 0, data, last, last, vl);
    if m != n - 1 {
        assert(crate::build_laws::found_earlier(ns, old, last, km, vm));
    }
    let on_the_path = m != n - 1 && crate::build_laws::prefix_before(km, last);
    assert(path_node_ok(ns[0], last[0]));
    reveal(path_node_ok);
    assert(path_sum(ns, 0) == 0);
    if on_the_path {
        assert(d == km.len());
        assert(nsd[d - 1] == ns[d - 1]);
        assert(crate::build_laws::on_path(nsd, km, vm));
    }
    if d > 0 {
        if m != n - 1 && !on_the_path {
            let ai = choose|ai: int|
                0 <= ai < ns[d].states.len() - 1 && (#[trigger] ns[d].states[ai])._in == km[d]
                    && walk_below(old, ns[d].states[ai], km, d + 1, (path_sum(ns, d) + ns[d].states[ai].out) as u64) == Some(vm);
            assert(nsd[d] == ns[d]);
            lemma_walk_ext(old, data, ns[d].states[ai], km, d + 1, (path_sum(ns, d) + ns[d].states[ai].out) as u64, vm);
            assert(nsd[d].states[ai]._in == km[d]);
            assert(below_side(nsd, data, d, km, vm));
        }
        lemma_chain(nsd, b.enc, 0, 0, data, last, km, vm);
        assert(below_last(nsd, data, 0, a as u64, km, vm));
        assert(km[0] == last[0]);
    }
    lemma_node_shape(e2, root);
    let above = state_with_target(fresh_state(0, 0), (data.len() as int) as u64);
    let j = if d > 0 {
        ns[0].states.len() - 1
    } else {
        choose|ai: int|
            0 <= ai < ns[0].states.len() - 1 && (#[trigger] ns[0].states[ai])._in == km[0]
                && walk_below(old, ns[0].states[ai], km, 1, (path_sum(ns, 0) + ns[0].states[ai].out) as u64) == Some(vm)
    };
    if d == 0 {
        lemma_walk_ext(old, data, ns[0].states[j], km, 1, (path_sum(ns, 0) + ns[0].states[j].out) as u64, vm);
    }
    assert(path_sum(ns, 0) + ns[0].states[j].out <= u64::MAX);
    lemma_enter_node(data, e2, ns[0], a as u64, above, km, 0, 0, j, vm);
    lemma_arc_view_final(above);
    assert(crate::state::has_flag(0u8, crate::state::BIT_FINAL_STATE) == false) by (bit_vector);
    lemma_walk_congruent(data, arc_view(above), 0, above, data.len() as int, km, 0, 0);
}

/// Adding a key only appends bytes to what the builder has written: nothing
/// written is ever changed.
pub proof fn lemma_add_appends(b: BuilderV, key: Seq<u8>, val: u64)
    ensures
        is_prefix(b.enc.bytes, add_spec(b, key, val).enc.bytes),
{
    let p = crate::state::match_len(b.stack, key);
    crate::state::lemma_match_len_bound(b.stack, key, 0);
    let ns1 = crate::state::prefix_stack(b.stack, key, val);
    lemma_freeze_extends(ns1, b.enc, p, -1i64);
}

/// Finishing only appends bytes to what the builder has written.
pub proof fn lemma_finish_appends(b: BuilderV)
    ensures
        is_prefix(b.enc.bytes, finish_spec(b).enc.bytes),
{
    let fl = freeze_loop(b.stack, b.enc, 0, -1i64);
    lemma_freeze_extends(b.stack, b.enc, 0, -1i64);
    let ns2 = crate::builder::top_last_target(fl.0, fl.2 as u64);
    if ns2.len() > 0 {
        lemma_node_extends(fl.1, ns2.last());
        crate::node_laws::lemma_prefix_trans(b.enc.bytes, fl.1.bytes, encode_node(fl.1, ns2.last()).bytes);
    }
}

/// The builder after adding the first `i` keys with their values, from the start.
pub open spec fn build_prefix(keys: Seq<Seq<u8>>, vals: Seq<u64>, i: nat) -> BuilderV
    decreases i,
{
    if i == 0 {
        start_state()
    } else {
        add_spec(build_prefix(keys, vals, (i - 1) as nat), keys[i - 1], vals[i - 1])
    }
}

/// The bytes of the transducer built from `keys` with `vals`: every key added in
/// turn, then the builder finished.
pub open spec fn build_bytes(keys: Seq<Seq<u8>>, vals: Seq<u64>) -> Seq<u8> {
    finish_spec(build_prefix(keys, vals, keys.len())).enc.bytes
}

/// The bytes written after `i` keys are a prefix of those written after `k`.
pub proof fn lemma_build_appends(keys: Seq<Seq<u8>>, vals: Seq<u64>, i: nat, k: nat)
    requires
        i <= k,
    ensures
        is_prefix(build_prefix(keys, vals, i).enc.bytes, build_prefix(keys, vals, k).enc.bytes),
    decreases k,
{
    if i == k {
        let x = build_prefix(keys, vals, i).enc.bytes;
        assert(x.subrange(0, x.len() as int) =~= x);
    } else {
        lemma_build_appends(keys, vals, i, (k - 1) as nat);
        let b = build_prefix(keys, vals, (k - 1) as nat);
        lemma_add_appends(b, keys[k - 1], vals[k - 1]);
        crate::node_laws::lemma_prefix_trans(build_prefix(keys, vals, i).enc.bytes, b.enc.bytes,
            build_prefix(keys, vals, k).enc.bytes);
    }
}

/// Keys in strictly increasing byte order: each sorts before every later one,
/// parting from it at a smaller byte or being a proper prefix of it.
pub open spec fn keys_increasing(keys: Seq<Seq<u8>>) -> bool {
    forall|i: int, j: int| 0 <= i < j < keys.len() ==> key_before(#[trigger] keys[i], #[trigger] keys[j])
}

/// The invariant holds after each key, and each key is accepted.
#[verifier::spinoff_prover]
#[verifier::rlimit(40)]
pub proof fn lemma_build_inv_upto(keys: Seq<Seq<u8>>, vals: Seq<u64>, i: nat)
    requires
        1 <= i <= keys.len(),
        vals.len() == keys.len(),
        keys[0].len() >= 1,
        keys_increasing(keys),
        build_prefix(keys, vals, keys.len()).enc.bytes.len() <= u32::MAX,
    ensures
        build_inv(build_prefix(keys, vals, i), keys.take(i as int), vals.take(i as int)),
        forall|t: int| 0 < t <= i ==> add_ok(#[trigger] build_prefix(keys, vals, (t - 1) as nat), keys[t - 1], vals[t - 1]),
    decreases i,
{
    if i == 1 {
        lemma_add_first(keys[0], vals[0]);
        assert(build_prefix(keys, vals, 0) == start_state());
        assert(keys.take(1) =~= seq![keys[0]]);
        assert(vals.take(1) =~= seq![vals[0]]);
    } else {
        let i1 = (i - 1) as nat;
        lemma_build_inv_upto(keys, vals, i1);
        let b = build_prefix(keys, vals, i1);
        assert(keys.take(i1 as int).last() == keys[i - 2]);
        assert(key_before(keys[i - 2], keys[i - 1]));
        lemma_build_appends(keys, vals, i, keys.len());
        lemma_add_next(b, keys.take(i1 as int), vals.take(i1 as int), keys[i - 1], vals[i - 1]);
        assert(keys.take(i1 as int).push(keys[i - 1]) =~= keys.take(i as int));
        assert(vals.take(i1 as int).push(vals[i - 1]) =~= vals.take(i as int));
    }
}

/// Every key of a list of non-empty keys in strictly increasing order is read
/// back from the transducer built from the list with the value it was added
/// with; and adding each key in turn is accepted. (The transducer must fit the
/// 32-bit addresses of its node arrays.)
pub proof fn lemma_get_after_build(keys: Seq<Seq<u8>>, vals: Seq<u64>)
    requires
        keys.len() >= 1,
        vals.len() == keys.len(),
        keys[0].len() >= 1,
        keys_increasing(keys),
        build_bytes(keys, vals).len() <= u32::MAX,
    ensures
        forall|t: int| 0 < t <= keys.len() ==> add_ok(#[trigger] build_prefix(keys, vals, (t - 1) as nat), keys[t - 1], vals[t - 1]),
        forall|m: int| 0 <= m < keys.len() ==> step_value(#[trigger] spec_get(build_bytes(keys, vals), keys[m])) == Some(vals[m]),
{
    let n = keys.len();
    let b = build_prefix(keys, vals, n);
    lemma_finish_appends(b);
    lemma_build_inv_upto(keys, vals, n);
    assert(keys.take(n as int) =~= keys);
    assert(vals.take(n as int) =~= vals);
    assert forall|m: int| 0 <= m < keys.len() implies step_value(#[trigger] spec_get(build_bytes(keys, vals), keys[m])) == Some(vals[m]) by {
        lemma_finish_found(b, keys, vals, m);
    }
}

/// A key that is not in the list is not found in the transducer built from it:
/// the lookup is answered not found or greater, and never reads outside the
/// bytes; so it holds for the empty key, for proper prefixes and extensions of
/// keys, and for keys that part from every key at some byte.
pub proof fn lemma_get_absent_after_build(keys: Seq<Seq<u8>>, vals: Seq<u64>, k: Seq<u8>)
    requires
        keys.len() >= 1,
        vals.len() == keys.len(),
        keys[0].len() >= 1,
        keys_increasing(keys),
        build_bytes(keys, vals).len() <= u32::MAX,
        forall|i: int| 0 <= i < keys.len() ==> #[trigger] keys[i] != k,
    ensures
        spec_get(build_bytes(keys, vals), k) == Step::<(u64, int)>::Fail(ReadErr::NotFound)
            || spec_get(build_bytes(keys, vals), k) == Step::<(u64, int)>::Fail(ReadErr::Greater),
{
    let data = build_bytes(keys, vals);
    let m = final_map(keys, vals);
    lemma_final_map(keys, vals);
    lemma_get_after_build(keys, vals);
    assert forall|i: int| 0 <= i < keys.len() implies #[trigger] step_value(spec_get(data, keys[i])) is Some by {
        assert(step_value(spec_get(data, keys[i])) == Some(vals[i]));
    }
    let st = state_with_target(fresh_state(0, 0), (data.len() as int) as u64);
    assert(crate::state::has_flag(0u8, crate::state::BIT_FINAL_STATE) == false) by (bit_vector);
    lemma_walk_absent(m, data, keys, k, 0, 0, st, data.len() as int, 0);
}

/// The state of an iteration over `data` after `i` steps from the start.
pub open spec fn iter_after(data: Seq<u8>, i: nat) -> IterV
    decreases i,
{
    if i == 0 {
        start_iter(data)
    } else {
        match next_step(data, iter_after(data, (i - 1) as nat)) {
            Step::Done(v) => v,
            _ => start_iter(data),
        }
    }
}

/// The conditions under which iteration reads back a built transducer: keys in
/// strictly increasing byte order, the first not empty, no key holds byte 255
/// (which iteration reads as the end of a key), no key is too long for the depth
/// counter, and the transducer fits 32-bit addresses.
pub open spec fn iter_keys_ok(keys: Seq<Seq<u8>>, vals: Seq<u64>) -> bool {
    &&& keys.len() >= 1
    &&& vals.len() == keys.len()
    &&& keys[0].len() >= 1
    &&& keys_increasing(keys)
    &&& build_bytes(keys, vals).len() <= u32::MAX
    &&& forall|i: int, s: int| 0 <= i < keys.len() && 0 <= s < keys[i].len() ==> #[trigger] keys[i][s] != 255
    &&& forall|i: int| 0 <= i < keys.len() ==> #[trigger] keys[i].len() + 3 <= usize::MAX
}

proof fn lemma_keys_ready(keys: Seq<Seq<u8>>, vals: Seq<u64>, i: int)
    requires
        iter_keys_ok(keys, vals),
        0 <= i < keys.len(),
    ensures
        key_ready(final_map(keys, vals), build_bytes(keys, vals), keys[i], vals[i]),
        final_ok(final_map(keys, vals), build_bytes(keys, vals), keys),
{
    let data = build_bytes(keys, vals);
    lemma_final_map(keys, vals);
    reveal(final_ok);
    lemma_get_after_build(keys, vals);
    assert(step_value(spec_get(data, keys[i])) == Some(vals[i]));
    if i > 0 {
        assert(key_before(keys[0], keys[i]));
        crate::build_laws::lemma_lcp(keys[0], keys[i]);
    }
    lemma_get_path(final_map(keys, vals), data, keys, i, vals[i]);
    assert forall|s: int| 0 <= s < keys[i].len() implies #[trigger] keys[i][s] != 255 by {
        assert(keys[i][s] != 255);
    }
}

#[verifier::spinoff_prover]
#[verifier::rlimit(30)]
proof fn lemma_iter_upto(keys: Seq<Seq<u8>>, vals: Seq<u64>, i: nat)
    requires
        iter_keys_ok(keys, vals),
        i < keys.len(),
    ensures
        at_key(final_map(keys, vals), build_bytes(keys, vals), iter_after(build_bytes(keys, vals), (i + 1) as nat), keys[i as int],
            vals[i as int]),
        can_step(build_bytes(keys, vals), iter_after(build_bytes(keys, vals), i)),
        next_step(build_bytes(keys, vals), iter_after(build_bytes(keys, vals), i))
            == Step::Done(iter_after(build_bytes(keys, vals), (i + 1) as nat)),
    decreases i,
{
    let data = build_bytes(keys, vals);
    let m = final_map(keys, vals);
    lemma_keys_ready(keys, vals, i as int);
    if i == 0 {
        lemma_iter_start(m, data, keys, vals[0]);
        lemma_next_step(data, start_iter(data), (keys[0].len() + 1) as nat);
    } else {
        let i1 = (i - 1) as nat;
        lemma_iter_upto(keys, vals, i1);
        let v = iter_after(data, i);
        lemma_keys_ready(keys, vals, i1 as int);
        lemma_iter_step(m, data, keys, i1 as int, v, vals[i1 as int], vals[i as int]);
        lemma_next_step(data, v, (keys[i as int].len() + 1) as nat);
    }
}

/// Iterating over the transducer built from keys sorted in strictly increasing
/// byte order yields the keys in that order, each with the value it was added
/// with, and then ends: every step can be taken, step `i` yields key `i` (the
/// bytes after the pseudo-arc above the root, and the sum at the bottom), and the
/// step after the last key ends the iteration. Keys that are prefixes of later
/// keys are yielded before them. (No key may hold byte 255, which iteration reads
/// as the end of a key, and no key may be too long for the depth counter.)
pub proof fn lemma_iter_after_build(keys: Seq<Seq<u8>>, vals: Seq<u64>)
    requires
        iter_keys_ok(keys, vals),
    ensures
        forall|i: int| 0 <= i < keys.len() ==> {
            let v = #[trigger] iter_after(build_bytes(keys, vals), i as nat);
            let w = iter_after(build_bytes(keys, vals), (i + 1) as nat);
            &&& iter_wf(v)
            &&& can_step(build_bytes(keys, vals), v)
            &&& next_step(build_bytes(keys, vals), v) == Step::Done(w)
            &&& w.upto > 0
            &&& w.input.subrange(1, w.upto) == keys[i]
            &&& w.out[w.upto] == vals[i]
        },
        iter_wf(iter_after(build_bytes(keys, vals), keys.len())),
        can_step(build_bytes(keys, vals), iter_after(build_bytes(keys, vals), keys.len())),
        next_step(build_bytes(keys, vals), iter_after(build_bytes(keys, vals), keys.len())) matches Step::Done(w) && w.upto == 0,
{
    let data = build_bytes(keys, vals);
    let m = final_map(keys, vals);
    let n = keys.len();
    assert forall|i: int| 0 <= i < keys.len() implies {
        let v = #[trigger] iter_after(data, i as nat);
        let w = iter_after(data, (i + 1) as nat);
        &&& iter_wf(v)
        &&& can_step(data, v)
        &&& next_step(data, v) == Step::Done(w)
        &&& w.upto > 0
        &&& w.input.subrange(1, w.upto) == keys[i]
        &&& w.out[w.upto] == vals[i]
    } by {
        lemma_iter_upto(keys, vals, i as nat);
        if i > 0 {
            lemma_iter_upto(keys, vals, (i - 1) as nat);
        }
        let w = iter_after(data, (i + 1) as nat);
        assert(w.input.subrange(1, w.upto) =~= keys[i]);
    }
    lemma_iter_upto(keys, vals, (n - 1) as nat);
    lemma_keys_ready(keys, vals, (n - 1) as int);
    let v = iter_after(data, n);
    assert(keys.last() == keys[n - 1]);
    lemma_iter_end(m, data, keys, v, vals[n - 1], 0);
    lemma_next_step(data, v, 0);
}

} // verus!
