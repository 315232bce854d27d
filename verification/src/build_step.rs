use vstd::prelude::*;
use crate::build_laws::arc_view;
use crate::build_laws::below_last;
use crate::build_laws::below_side;
use crate::build_laws::build_inv;
use crate::build_laws::found_below;
use crate::build_laws::lemma_diverges_trans;
use crate::build_laws::lemma_chain;
use crate::builder::add_spec;
use crate::builder::freeze_loop;
use crate::builder::top_last_target;
use crate::build_laws::lemma_freeze_extends;
use crate::state::rest_out;
use crate::format::EncV;
use crate::node_laws::aligned;
use crate::state::state_with_target;
use crate::build_laws::lemma_arc_view_final;
use crate::build_laws::lemma_walk_target;
use crate::build_laws::walk_below;
use crate::node_laws::is_prefix;
use crate::walk_laws::lemma_ext_walk;
use crate::walk_laws::lemma_walk_congruent;
use crate::build_laws::chain_ok;
use crate::build_laws::diverges_before;
use crate::build_laws::lcp;
use crate::build_laws::lemma_lcp;
use crate::build_laws::lemma_match_is_lcp;
use crate::build_laws::lemma_path_sum_agree;
use crate::build_laws::lemma_path_sum_nonneg;
use crate::build_laws::lemma_prefix_arcs;
use crate::build_laws::lemma_prefix_sums;
use crate::build_laws::lemma_prefix_walk_closed;
use crate::build_laws::path_node_ok;
use crate::build_laws::path_sum;
use crate::build_laws::stack_ok;
use crate::builder::add_ok;
use crate::builder::BuilderV;
use crate::state::carry;
use crate::state::empty_node;
use crate::state::last_in_of;
use crate::state::last_out_of;
use crate::state::match_len;
use crate::state::match_len_from;
use crate::state::prefix_node;
use crate::state::prefix_stack;
use crate::state::push_safe;
use crate::state::final_push_safe;
use crate::build_laws::key_before;
use crate::build_laws::prefix_before;
use crate::build_laws::on_path;
use crate::build_laws::found_earlier;
use crate::build_laws::nodes_ok;
use crate::build_laws::lemma_lcp_unique;
use crate::trie_laws::is_key;
use crate::state::fresh_state;
use crate::state::map_last;
use crate::state::node_with_states;
use crate::state::single_arc_node;
use crate::state::state_with_final;
use crate::state::suffix_stack;
use crate::node_laws::sorted_labels;
use crate::state::NodeV;
use crate::state::State;

verus! {

/// The arc that appending a key adds for its byte `t`: output `out` on the first,
/// none on the others, and the last one ends the key.
pub open spec fn suffix_arc(key: Seq<u8>, t: int, out: u64) -> State {
    let s = fresh_state(key[t], if t == 0 { out } else { 0 });
    if t == key.len() - 1 { state_with_final(s) } else { s }
}

/// The shape of the stack after appending a nonempty `key` below the top node.
pub proof fn lemma_suffix_shape(ns: Seq<NodeV>, key: Seq<u8>, out: u64)
    requires
        ns.len() >= 1,
        key.len() >= 1,
    ensures
        ({
            let r = suffix_stack(ns, key, out);
            let l = ns.len() - 1;
            &&& r.len() == ns.len() + key.len()
            &&& forall|i: int| 0 <= i < l ==> r[i] == ns[i]
            &&& r[l].is_final == ns[l].is_final
            &&& r[l].final_output == ns[l].final_output
            &&& r[l].states.len() == ns[l].states.len() + 1
            &&& forall|j: int| 0 <= j < ns[l].states.len() ==> r[l].states[j] == ns[l].states[j]
            &&& forall|i: int| l < i < l + key.len() ==> (#[trigger] r[i]).states.len() == 1 && !r[i].is_final
                && r[i].final_output == 0
            &&& forall|i: int| l <= i < l + key.len() ==> (#[trigger] r[i]).states.last() == suffix_arc(key, i - l, out)
            &&& r[l + key.len()] == empty_node(true)
        }),
{
    let l = ns.len() - 1;
    let ns1 = ns.update(l, node_with_states(ns[l], ns[l].states.push(fresh_state(key[0], out))));
    let ns2 = ns1 + Seq::new((key.len() - 1) as nat, |j: int| single_arc_node(key[j + 1]));
    let top = ns2.last();
    let ns3 = ns2.update(ns2.len() - 1, map_last(top, state_with_final(top.states.last())));
    let r = suffix_stack(ns, key, out);
    assert(r == ns3.push(empty_node(true)));
    assert(ns2.len() == l + key.len());
    assert forall|i: int| l < i < l + key.len() implies (#[trigger] r[i]).states.len() == 1 && !r[i].is_final
        && r[i].final_output == 0 by {
        assert(ns2[i] == single_arc_node(key[i - l]));
    }
    assert forall|i: int| l <= i < l + key.len() implies (#[trigger] r[i]).states.last() == suffix_arc(key, i - l, out) by {
        if i > l {
            assert(ns2[i] == single_arc_node(key[i - l]));
        }
    }
}

/// A prefix of a key shares all of its bytes with it.
pub proof fn lemma_lcp_prefix(a: Seq<u8>, i: int)
    requires
        0 <= i <= a.len(),
    ensures
        lcp(a.subrange(0, i), a) == i,
{
    lemma_lcp(a.subrange(0, i), a);
    let d = lcp(a.subrange(0, i), a);
    if d < i {
        assert(a.subrange(0, i)[d] == a[d]);
    }
}

/// What the invariant gives about the stack that matching a new key relies on.
pub proof fn lemma_inv_stack(b: BuilderV, keys: Seq<Seq<u8>>, vals: Seq<u64>)
    requires
        build_inv(b, keys, vals),
    ensures
        stack_ok(b.stack, keys.last().len() as int),
        forall|i: int| 0 <= i < keys.last().len() ==> last_in_of(#[trigger] b.stack[i]) == keys.last()[i],
        forall|i: int| 0 <= i < keys.last().len() ==> (#[trigger] b.stack[i]).states.len() > 0 && sorted_labels(b.stack[i].states)
            && last_in_of(b.stack[i]) == keys.last()[i],
{
    let last = keys.last();
    let q = last.len() as int;
    let n = keys.len() as int;
    let ns = b.stack;
    assert forall|i: int| 0 <= i < q implies (#[trigger] ns[i]).states.len() > 0 && sorted_labels(ns[i].states)
        && last_in_of(ns[i]) == last[i] && ns[i].final_output == 0 by {
        assert(path_node_ok(ns[i], last[i]));
        reveal(path_node_ok);
    }
    assert forall|i: int| 1 <= i <= q && (#[trigger] ns[i]).is_final
        implies path_sum(ns, i) + ns[i - 1].states.last().final_out <= u64::MAX by {
        if i < q {
            assert(ns[i - 1].states.last().is_final);
            assert(is_key(keys, last.subrange(0, i)));
            let m = choose|m: int| 0 <= m < keys.len() && #[trigger] keys[m] == last.subrange(0, i);
            assert(m != n - 1);
            lemma_lcp_prefix(last, i);
            assert(found_earlier(ns, b.enc.bytes, last, keys[m], vals[m]));
            assert(prefix_before(keys[m], last));
        }
    }
}

/// Adding a key that sorts after the last one is defined, and matches the last
/// key up to their common prefix.
#[verifier::spinoff_prover]
#[verifier::rlimit(30)]
pub proof fn lemma_add_ok(b: BuilderV, keys: Seq<Seq<u8>>, vals: Seq<u64>, key: Seq<u8>, v: u64)
    requires
        build_inv(b, keys, vals),
        key_before(keys.last(), key),
    ensures
        add_ok(b, key, v),
        match_len(b.stack, key) == lcp(keys.last(), key),
        lcp(keys.last(), key) <= keys.last().len(),
        lcp(keys.last(), key) < key.len(),
        diverges_before(keys.last(), key) ==> lcp(keys.last(), key) < keys.last().len(),
        prefix_before(keys.last(), key) ==> lcp(keys.last(), key) == keys.last().len(),
{
    let last = keys.last();
    let q = last.len() as int;
    let ns = b.stack;
    lemma_inv_stack(b, keys, vals);
    lemma_match_is_lcp(ns, last, key);
    lemma_lcp(last, key);
    let p = match_len(ns, key);
    assert(p <= q);
    assert forall|k: int| 1 <= k <= p && k < ns.len() && carry(ns, v, k) > 0 implies #[trigger] push_safe(ns[k], carry(ns, v, k))
        && final_push_safe(ns, k, carry(ns, v, k)) by {
        lemma_prefix_walk_closed(ns, v, k);
        lemma_path_sum_nonneg(ns, k);
        let c = carry(ns, v, k);
        assert(0 <= c <= path_sum(ns, k));
        if k < q {
            assert forall|j: int| 0 <= j < ns[k].states.len() implies #[trigger] ns[k].states[j].out + carry(ns, v, k) <= u64::MAX by {
                assert(path_sum(ns, k) + ns[k].states[j].out <= u64::MAX);
            }
            assert(path_sum(ns, k) + ns[k].states[0].out <= u64::MAX);
        }
        if ns[k].is_final {
            assert(path_sum(ns, k) + ns[k - 1].states.last().final_out <= u64::MAX);
        }
        assert(ns[k].final_output == 0);
    }
}

/// After matching a new key, the nodes below the common prefix are ready for the
/// freeze: labels and order unchanged, and no output sum overflows.
pub proof fn lemma_prefix_chain(ns: Seq<NodeV>, key: Seq<u8>, v: u64, last: Seq<u8>)
    requires
        stack_ok(ns, last.len() as int),
        forall|i: int| 0 <= i < last.len() ==> (#[trigger] ns[i]).states.len() > 0 && sorted_labels(ns[i].states)
            && last_in_of(ns[i]) == last[i],
        match_len(ns, key) < last.len(),
    ensures
        chain_ok(prefix_stack(ns, key, v).drop_last(), match_len(ns, key), last),
{
    let q = last.len() as int;
    let p = match_len(ns, key);
    let ns1 = prefix_stack(ns, key, v);
    let nsd = ns1.drop_last();
    crate::state::lemma_match_len_bound(ns, key, 0);
    assert(ns1.len() == ns.len());
    assert(nsd.len() == q);
    assert forall|i: int| p < i < nsd.len() implies (#[trigger] nsd[i]).states.len() > 0 && sorted_labels(nsd[i].states)
        && last_in_of(nsd[i]) == last[i] by {
        lemma_prefix_arcs(ns, key, v, q, i);
        assert(nsd[i] == ns1[i]);
    }
    assert forall|i: int, j: int| 0 <= i < nsd.len() && 0 <= j < nsd[i].states.len()
        implies path_sum(nsd, i) + (#[trigger] nsd[i].states[j]).out <= u64::MAX by {
        assert(nsd[i] == ns1[i]);
        lemma_path_sum_agree(nsd, ns1, i);
        lemma_prefix_arcs(ns, key, v, q, i);
        lemma_prefix_sums(ns, key, v, q, i);
        lemma_path_sum_nonneg(ns, i);
        assert(path_sum(ns, i) + ns[i].states[j].out <= u64::MAX);
        if i <= p {
            lemma_prefix_walk_closed(ns, v, i);
            if i < p && j == ns[i].states.len() - 1 {
                lemma_prefix_sums(ns, key, v, q, i + 1);
                assert(path_sum(ns1, i + 1) == path_sum(ns1, i) + ns1[i].states[j].out);
            }
        }
    }
}

/// A lookup below an arc that succeeds in some bytes succeeds the same in bytes
/// that extend them.
pub proof fn lemma_walk_ext(old: Seq<u8>, data: Seq<u8>, s: State, key: Seq<u8>, j: int, o: u64, v: u64)
    requires
        is_prefix(old, data),
        walk_below(old, s, key, j, o) == Some(v),
    ensures
        walk_below(data, s, key, j, o) == Some(v),
{
    lemma_ext_walk(old, data, arc_view(s), 0, key, j, o);
}

/// A lookup below an arc does not depend on the arc's output, only on its target,
/// finality and final output.
pub proof fn lemma_walk_same_arc(data: Seq<u8>, s1: State, s2: State, key: Seq<u8>, j: int, o: u64, v: u64)
    requires
        walk_below(data, s1, key, j, o) == Some(v),
        s1.target == s2.target,
        s1.final_out == s2.final_out,
        s1.is_final == s2.is_final,
    ensures
        walk_below(data, s2, key, j, o) == Some(v),
{
    lemma_arc_view_final(s1);
    lemma_arc_view_final(s2);
    if j < key.len() {
        lemma_walk_target(data, s1, key, j, o);
    }
    lemma_walk_congruent(data, arc_view(s1), 0, arc_view(s2), 0, key, j, o);
}

/// A key found below a side arc of a node on the common prefix (or of the node
/// where the new key parts) is still found there after matching the new key: the
/// arc's output grows by what the path above it lost.
pub proof fn lemma_keep_low(ns: Seq<NodeV>, nsn: Seq<NodeV>, key: Seq<u8>, v: u64, q: int, d: int, a: int,
    km: Seq<u8>, vm: u64, old: Seq<u8>, data: Seq<u8>)
    requires
        stack_ok(ns, q),
        match_len(ns, key) <= q,
        0 <= d <= match_len(ns, key),
        0 <= a < ns[d].states.len() - 1,
        is_prefix(old, data),
        walk_below(old, ns[d].states[a], km, d + 1, (path_sum(ns, d) + ns[d].states[a].out) as u64) == Some(vm),
        nsn.len() > d,
        forall|t: int| 0 <= t < d ==> nsn[t] == #[trigger] prefix_stack(ns, key, v)[t],
        nsn[d].states[a] == prefix_stack(ns, key, v)[d].states[a],
    ensures
        walk_below(data, nsn[d].states[a], km, d + 1, (path_sum(nsn, d) + nsn[d].states[a].out) as u64) == Some(vm),
{
    let ns1 = prefix_stack(ns, key, v);
    let p = match_len(ns, key);
    crate::state::lemma_match_len_bound(ns, key, 0);
    assert(ns1.len() == ns.len());
    lemma_prefix_arcs(ns, key, v, q, d);
    lemma_prefix_sums(ns, key, v, q, d);
    lemma_prefix_walk_closed(ns, v, d);
    lemma_path_sum_nonneg(ns, d);
    assert forall|t: int| 0 <= t < d implies last_out_of(#[trigger] nsn[t]) == last_out_of(ns1[t]) by {
        assert(nsn[t] == ns1[t]);
    }
    lemma_path_sum_agree(nsn, ns1, d);
    let so = ns[d].states[a];
    let sn = nsn[d].states[a];
    assert(sn.out == so.out + carry(ns, v, d));
    assert(path_sum(nsn, d) + sn.out == path_sum(ns, d) + so.out);
    lemma_walk_ext(old, data, so, km, d + 1, (path_sum(ns, d) + so.out) as u64, vm);
    lemma_walk_same_arc(data, so, sn, km, d + 1, (path_sum(ns, d) + so.out) as u64, vm);
}

/// The lcp of a key with itself is its length.
pub proof fn lemma_lcp_self(a: Seq<u8>)
    ensures
        lcp(a, a) == a.len(),
{
    lemma_lcp(a, a);
}

/// A key that is a prefix of the last key, longer than the common prefix with the
/// new key, still ends at the end of its stretch of the path after matching.
proof fn lemma_keep_on_chain(ns: Seq<NodeV>, key: Seq<u8>, v: u64, last: Seq<u8>, km: Seq<u8>, vm: u64)
    requires
        stack_ok(ns, last.len() as int),
        match_len(ns, key) < last.len(),
        prefix_before(km, last),
        match_len(ns, key) < km.len(),
        on_path(ns, km, vm),
    ensures
        on_path(prefix_stack(ns, key, v).drop_last(), km, vm),
{
    let q = last.len() as int;
    let p = match_len(ns, key);
    let ns1 = prefix_stack(ns, key, v);
    let nsd = ns1.drop_last();
    let d = km.len() as int;
    crate::state::lemma_match_len_bound(ns, key, 0);
    assert(ns1.len() == ns.len());
    lemma_prefix_arcs(ns, key, v, q, d - 1);
    assert(nsd[d - 1] == ns1[d - 1]);
    assert forall|t: int| 0 <= t < d implies last_out_of(#[trigger] nsd[t]) == last_out_of(ns1[t]) by {
        assert(nsd[t] == ns1[t]);
    }
    lemma_path_sum_agree(nsd, ns1, d);
    lemma_prefix_sums(ns, key, v, q, d);
    let l = ns[d - 1].states.len() - 1;
    assert(ns1[d - 1].states[l].final_out == ns[d - 1].states[l].final_out);
    assert(ns1[d - 1].states[l].is_final == ns[d - 1].states[l].is_final);
}

/// A key that follows the last key past the common prefix with the new key (the
/// last key itself among them) is found, after the freeze, below the kept top
/// node's last arc, which now points at the nodes just compiled.
#[verifier::rlimit(30)]
pub proof fn lemma_keep_high(ns: Seq<NodeV>, key: Seq<u8>, v: u64, last: Seq<u8>, e: EncV, old: Seq<u8>, data: Seq<u8>,
    km: Seq<u8>, vm: u64)
    requires
        stack_ok(ns, last.len() as int),
        forall|i: int| 0 <= i < last.len() ==> (#[trigger] ns[i]).states.len() > 0 && sorted_labels(ns[i].states)
            && last_in_of(ns[i]) == last[i],
        match_len(ns, key) < last.len(),
        aligned(e),
        is_prefix(old, data),
        is_prefix(freeze_loop(prefix_stack(ns, key, v).drop_last(), e, match_len(ns, key), 0).1.bytes, data),
        data.len() <= u32::MAX,
        match_len(ns, key) < lcp(km, last),
        km == last || (lcp(km, last) < km.len() && lcp(km, last) < last.len()) || prefix_before(km, last),
        km == last ==> last.len() >= 1 && ns[last.len() - 1].states.last().is_final && path_sum(ns, last.len() as int) == vm
            && ns[last.len() - 1].states.last().final_out == 0,
        km != last && lcp(km, last) < km.len() ==> below_side(ns, old, lcp(km, last), km, vm),
        prefix_before(km, last) ==> on_path(ns, km, vm),
    ensures
        ({
            let p = match_len(ns, key);
            let fl = freeze_loop(prefix_stack(ns, key, v).drop_last(), e, p, 0);
            &&& below_last(prefix_stack(ns, key, v).drop_last(), data, p, fl.2 as u64, km, vm)
            &&& aligned(fl.1)
            &&& fl.2 >= 0
            &&& p + 1 < km.len() ==> fl.2 > 0
        }),
{
    let q = last.len() as int;
    let p = match_len(ns, key);
    let ns1 = prefix_stack(ns, key, v);
    let nsd = ns1.drop_last();
    let d = lcp(km, last);
    crate::state::lemma_match_len_bound(ns, key, 0);
    assert(ns1.len() == ns.len());
    lemma_prefix_chain(ns, key, v, last);
    lemma_lcp(km, last);
    if km == last {
        lemma_lcp_self(last);
        lemma_prefix_arcs(ns, key, v, q, q - 1);
        lemma_path_sum_agree(nsd, ns1, q);
        lemma_prefix_sums(ns, key, v, q, q);
        let st = state_with_target(nsd[q - 1].states.last(), 0);
        assert(nsd[q - 1] == ns1[q - 1]);
        assert(st.is_final);
        assert(st.final_out == 0);
        lemma_arc_view_final(st);
        assert(walk_below(data, st, km, q, path_sum(nsd, q) as u64) == Some(vm));
    } else if prefix_before(km, last) {
        lemma_keep_on_chain(ns, key, v, last, km, vm);
    } else {
        assert(d < q);
        let a = choose|a: int|
            0 <= a < ns[d].states.len() - 1 && (#[trigger] ns[d].states[a])._in == km[d]
                && walk_below(old, ns[d].states[a], km, d + 1, (path_sum(ns, d) + ns[d].states[a].out) as u64) == Some(vm);
        lemma_prefix_arcs(ns, key, v, q, d);
        assert(nsd[d] == ns[d]);
        lemma_path_sum_agree(nsd, ns1, d);
        lemma_prefix_sums(ns, key, v, q, d);
        lemma_walk_ext(old, data, ns[d].states[a], km, d + 1, (path_sum(ns, d) + ns[d].states[a].out) as u64, vm);
        assert(nsd[d].states[a]._in == km[d]);
        assert(below_side(nsd, data, d, km, vm));
    }
    lemma_chain(nsd, e, p, 0, data, last, km, vm);
}

/// The stack after matching `key` against the builder's stack.
pub open spec fn matched(b: BuilderV, key: Seq<u8>, v: u64) -> Seq<NodeV> {
    prefix_stack(b.stack, key, v)
}

/// The freeze that adding `key` performs, from the matched stack without its empty top.
pub open spec fn step_freeze(b: BuilderV, key: Seq<u8>, v: u64) -> (Seq<NodeV>, EncV, i64) {
    freeze_loop(matched(b, key, v).drop_last(), b.enc, match_len(b.stack, key), 0)
}

/// How adding a key that parts from the last key at `p` reshapes the stack: the
/// nodes above `p` are those of the matched stack, node `p` keeps its arcs (the
/// last now pointing at the nodes just compiled) and gains one for the new key.
pub proof fn lemma_step_frame(b: BuilderV, keys: Seq<Seq<u8>>, vals: Seq<u64>, key: Seq<u8>, v: u64)
    requires
        build_inv(b, keys, vals),
        diverges_before(keys.last(), key),
        add_spec(b, key, v).enc.bytes.len() <= u32::MAX,
    ensures
        ({
            let p = match_len(b.stack, key);
            let ns1 = matched(b, key, v);
            let fl = step_freeze(b, key, v);
            let nsn = add_spec(b, key, v).stack;
            let data = add_spec(b, key, v).enc.bytes;
            let l = ns1[p].states.len();
            &&& add_ok(b, key, v)
            &&& p == lcp(keys.last(), key)
            &&& 0 <= p < keys.last().len()
            &&& p < key.len()
            &&& ns1.len() == b.stack.len()
            &&& chain_ok(ns1.drop_last(), p, keys.last())
            &&& data == fl.1.bytes
            &&& add_spec(b, key, v).enc == fl.1
            &&& is_prefix(b.enc.bytes, data)
            &&& aligned(fl.1)
            &&& fl.2 >= 0
            &&& p + 1 < keys.last().len() ==> fl.2 > 0
            &&& below_last(ns1.drop_last(), data, p, fl.2 as u64, keys.last(), vals.last())
            &&& nsn.len() == key.len() + 1
            &&& forall|t: int| 0 <= t < p ==> nsn[t] == #[trigger] ns1[t]
            &&& l >= 1
            &&& nsn[p].states.len() == l + 1
            &&& nsn[p].is_final == ns1[p].is_final
            &&& nsn[p].final_output == ns1[p].final_output
            &&& forall|j: int| 0 <= j < l - 1 ==> nsn[p].states[j] == #[trigger] ns1[p].states[j]
            &&& nsn[p].states[l - 1] == state_with_target(ns1[p].states.last(), fl.2 as u64)
            &&& forall|i: int| p < i < key.len() ==> (#[trigger] nsn[i]).states.len() == 1 && !nsn[i].is_final
                && nsn[i].final_output == 0
            &&& forall|i: int| p <= i < key.len() ==> (#[trigger] nsn[i]).states.last()
                == suffix_arc(key.subrange(p, key.len() as int), i - p, rest_out(b.stack, v, p) as u64)
            &&& nsn[key.len() as int] == empty_node(true)
        }),
{
    let n = keys.len() as int;
    let last = keys.last();
    let q = last.len() as int;
    let ns = b.stack;
    lemma_add_ok(b, keys, vals, key, v);
    lemma_inv_stack(b, keys, vals);
    let p = match_len(ns, key);
    let ns1 = prefix_stack(ns, key, v);
    let nsd = ns1.drop_last();
    crate::state::lemma_match_len_bound(ns, key, 0);
    assert(ns1.len() == ns.len());
    assert forall|i: int| 0 <= i < q implies (#[trigger] ns[i]).states.len() > 0 && sorted_labels(ns[i].states)
        && last_in_of(ns[i]) == last[i] by {
        assert(path_node_ok(ns[i], last[i]));
        reveal(path_node_ok);
    }
    lemma_prefix_chain(ns, key, v, last);
    let fl = freeze_loop(nsd, b.enc, p, 0);
    assert(freeze_loop(ns1, b.enc, p, -1i64) == fl);
    lemma_freeze_extends(nsd, b.enc, p, 0);
    let e2 = fl.1;
    let a = fl.2;
    let data = e2.bytes;
    let ns2 = top_last_target(fl.0, a as u64);
    let out = rest_out(ns, v, p);
    let rest = key.subrange(p, key.len() as int);
    let nsn = suffix_stack(ns2, rest, out as u64);
    assert(add_spec(b, key, v) == BuilderV { stack: nsn, enc: e2 });
    lemma_lcp_self(last);
    assert(is_prefix(data, data)) by {
        assert(data.subrange(0, data.len() as int) =~= data);
    }
    lemma_keep_high(ns, key, v, last, b.enc, b.enc.bytes, data, last, vals[n - 1]);
    lemma_prefix_arcs(ns, key, v, q, p);
    assert(nsd[p] == ns1[p]);
    assert(ns2.len() == p + 1);
    lemma_suffix_shape(ns2, rest, out as u64);
    assert forall|t: int| 0 <= t < p implies nsn[t] == #[trigger] ns1[t] by {
        assert(ns2[t] == nsd[t]);
    }
}

/// A key that agrees with the last key at the level where the new key parts is
/// found below the old last arc of that level's node.
proof fn lemma_found_top(nsn: Seq<NodeV>, ns1: Seq<NodeV>, data: Seq<u8>, p: int, a: i64, key: Seq<u8>, km: Seq<u8>, vm: u64)
    requires
        0 <= p < ns1.len() - 1,
        p < nsn.len(),
        forall|t: int| 0 <= t < p ==> nsn[t] == #[trigger] ns1[t],
        ns1[p].states.len() >= 1,
        nsn[p].states.len() == ns1[p].states.len() + 1,
        nsn[p].states[ns1[p].states.len() - 1] == state_with_target(ns1[p].states.last(), a as u64),
        below_last(ns1.drop_last(), data, p, a as u64, km, vm),
        lcp(km, key) == p,
        p < km.len(),
        km[p] == ns1[p].states.last()._in,
    ensures
        found_below(nsn, data, key, km, vm),
{
    let nsd = ns1.drop_last();
    let l = ns1[p].states.len();
    assert forall|t: int| 0 <= t < p implies last_out_of(#[trigger] nsn[t]) == last_out_of(ns1[t]) by {
        assert(nsn[t] == ns1[t]);
    }
    lemma_path_sum_agree(nsn, ns1, p);
    assert forall|t: int| 0 <= t < p + 1 implies last_out_of(#[trigger] nsd[t]) == last_out_of(ns1[t]) by {
        assert(nsd[t] == ns1[t]);
    }
    lemma_path_sum_agree(nsd, ns1, p + 1);
    lemma_path_sum_agree(nsd, ns1, p);
    let top = nsn[p].states[l - 1];
    assert(path_sum(nsn, p) + top.out == path_sum(nsd, p + 1));
    assert(nsd[p] == ns1[p]);
    assert(walk_below(data, nsn[p].states[l - 1], km, p + 1, (path_sum(nsn, p) + nsn[p].states[l - 1].out) as u64) == Some(vm));
}

/// A key found below a side arc at a level on the common prefix, or at the level
/// where the new key parts, is found there after the new key is added.
proof fn lemma_found_low(ns: Seq<NodeV>, nsn: Seq<NodeV>, key: Seq<u8>, v: u64, q: int, d: int, km: Seq<u8>, vm: u64,
    old: Seq<u8>, data: Seq<u8>)
    requires
        stack_ok(ns, q),
        match_len(ns, key) <= q,
        0 <= d <= match_len(ns, key),
        is_prefix(old, data),
        below_side(ns, old, d, km, vm),
        nsn.len() > d,
        forall|t: int| 0 <= t < d ==> nsn[t] == #[trigger] prefix_stack(ns, key, v)[t],
        nsn[d].states.len() >= ns[d].states.len(),
        forall|j: int| 0 <= j < ns[d].states.len() - 1 ==> nsn[d].states[j] == #[trigger] prefix_stack(ns, key, v)[d].states[j],
        lcp(km, key) == d,
    ensures
        found_below(nsn, data, key, km, vm),
{
    let ai = choose|ai: int|
        0 <= ai < ns[d].states.len() - 1 && (#[trigger] ns[d].states[ai])._in == km[d]
            && walk_below(old, ns[d].states[ai], km, d + 1, (path_sum(ns, d) + ns[d].states[ai].out) as u64) == Some(vm);
    crate::state::lemma_match_len_bound(ns, key, 0);
    lemma_prefix_arcs(ns, key, v, q, d);
    assert(nsn[d].states[ai] == prefix_stack(ns, key, v)[d].states[ai]);
    lemma_keep_low(ns, nsn, key, v, q, d, ai, km, vm, old, data);
    assert(nsn[d].states[ai]._in == km[d]);
}

/// The last key added so far is found after the next key is added.
proof fn lemma_found_last_key(b: BuilderV, keys: Seq<Seq<u8>>, vals: Seq<u64>, key: Seq<u8>, v: u64)
    requires
        build_inv(b, keys, vals),
        diverges_before(keys.last(), key),
        add_spec(b, key, v).enc.bytes.len() <= u32::MAX,
    ensures
        found_below(add_spec(b, key, v).stack, add_spec(b, key, v).enc.bytes, key, keys.last(), vals.last()),
{
    let last = keys.last();
    let ns = b.stack;
    lemma_step_frame(b, keys, vals, key, v);
    lemma_inv_stack(b, keys, vals);
    let p = match_len(ns, key);
    let ns1 = matched(b, key, v);
    lemma_prefix_arcs(ns, key, v, last.len() as int, p);
    assert(ns1[p].states.last()._in == last[p]);
    lemma_lcp_self(last);
    lemma_found_top(add_spec(b, key, v).stack, ns1, add_spec(b, key, v).enc.bytes, p, step_freeze(b, key, v).2, key, last,
        vals.last());
}

/// A key added before the last one, which parts from the last key at or above
/// the level where the new key parts, is found after the new key is added.
proof fn lemma_found_old_low(b: BuilderV, keys: Seq<Seq<u8>>, vals: Seq<u64>, key: Seq<u8>, v: u64, km: Seq<u8>, vm: u64)
    requires
        build_inv(b, keys, vals),
        diverges_before(keys.last(), key),
        add_spec(b, key, v).enc.bytes.len() <= u32::MAX,
        diverges_before(km, keys.last()),
        found_below(b.stack, b.enc.bytes, keys.last(), km, vm),
        lcp(km, keys.last()) <= match_len(b.stack, key),
    ensures
        found_below(add_spec(b, key, v).stack, add_spec(b, key, v).enc.bytes, key, km, vm),
{
    let last = keys.last();
    let q = last.len() as int;
    let ns = b.stack;
    lemma_step_frame(b, keys, vals, key, v);
    lemma_inv_stack(b, keys, vals);
    let p = match_len(ns, key);
    let ns1 = matched(b, key, v);
    let nsn = add_spec(b, key, v).stack;
    let d = lcp(km, last);
    lemma_diverges_trans(km, last, key);
    lemma_lcp(km, last);
    lemma_prefix_arcs(ns, key, v, q, d);
    if d == p {
        assert forall|j: int| 0 <= j < ns[d].states.len() - 1 implies nsn[d].states[j] == #[trigger] ns1[d].states[j] by {
            assert(nsn[p].states[j] == ns1[p].states[j]);
        }
    }
    lemma_found_low(ns, nsn, key, v, q, d, km, vm, b.enc.bytes, add_spec(b, key, v).enc.bytes);
}

/// Where a key that follows the last key past the level `p` at which the new key
/// parts from it stands to the new key: it parts from it at `p` too, with a smaller byte.
proof fn lemma_part_below(km: Seq<u8>, last: Seq<u8>, key: Seq<u8>, p: int)
    requires
        diverges_before(last, key),
        p == lcp(last, key),
        lcp(km, last) > p,
    ensures
        lcp(km, key) == p,
        km[p] == last[p],
        p < km.len(),
        diverges_before(km, key),
{
    lemma_lcp(km, last);
    lemma_lcp(last, key);
    assert(km[p] == last[p]);
    assert forall|t: int| 0 <= t < p implies km[t] == key[t] by {
        assert(km[t] == last[t]);
    }
    lemma_lcp_unique(km, key, p);
}

/// A key added before the last one, which follows the last key past the level
/// where the new key parts (parting from it lower down, or ending on its path
/// below that level), is found after the new key is added.
#[verifier::spinoff_prover]
#[verifier::rlimit(80)]
proof fn lemma_found_old_high(b: BuilderV, keys: Seq<Seq<u8>>, vals: Seq<u64>, key: Seq<u8>, v: u64, km: Seq<u8>, vm: u64)
    requires
        build_inv(b, keys, vals),
        diverges_before(keys.last(), key),
        add_spec(b, key, v).enc.bytes.len() <= u32::MAX,
        km != keys.last(),
        found_earlier(b.stack, b.enc.bytes, keys.last(), km, vm),
        lcp(km, keys.last()) > match_len(b.stack, key),
    ensures
        found_below(add_spec(b, key, v).stack, add_spec(b, key, v).enc.bytes, key, km, vm),
        diverges_before(km, key),
{
    let last = keys.last();
    let q = last.len() as int;
    let ns = b.stack;
    lemma_step_frame(b, keys, vals, key, v);
    lemma_inv_stack(b, keys, vals);
    let p = match_len(ns, key);
    let ns1 = matched(b, key, v);
    lemma_part_below(km, last, key, p);
    lemma_prefix_arcs(ns, key, v, q, p);
    let data = add_spec(b, key, v).enc.bytes;
    assert(is_prefix(data, data)) by {
        assert(data.subrange(0, data.len() as int) =~= data);
    }
    lemma_keep_high(ns, key, v, last, b.enc, b.enc.bytes, data, km, vm);
    lemma_found_top(add_spec(b, key, v).stack, ns1, add_spec(b, key, v).enc.bytes, p, step_freeze(b, key, v).2, key, km, vm);
}

/// A key added before the last one that is a prefix of the common prefix with the
/// new key stays at the end of its stretch of the path, with its value.
proof fn lemma_found_on_path(b: BuilderV, keys: Seq<Seq<u8>>, vals: Seq<u64>, key: Seq<u8>, v: u64, km: Seq<u8>, vm: u64,
    nsn: Seq<NodeV>)
    requires
        build_inv(b, keys, vals),
        key_before(keys.last(), key),
        prefix_before(km, keys.last()),
        on_path(b.stack, km, vm),
        km.len() <= match_len(b.stack, key),
        nsn.len() >= km.len(),
        forall|t: int| 0 <= t < km.len() ==> nsn[t] == #[trigger] matched(b, key, v)[t],
    ensures
        on_path(nsn, km, vm),
        prefix_before(km, key),
{
    let last = keys.last();
    let q = last.len() as int;
    let ns = b.stack;
    let ns1 = matched(b, key, v);
    let t = km.len() as int;
    lemma_add_ok(b, keys, vals, key, v);
    lemma_inv_stack(b, keys, vals);
    let p = match_len(ns, key);
    crate::state::lemma_match_len_bound(ns, key, 0);
    assert(ns1.len() == ns.len());
    lemma_lcp(km, last);
    lemma_lcp(last, key);
    lemma_lcp(km, key);
    assert forall|x: int| 0 <= x < t implies km[x] == key[x] by {
        assert(km[x] == last[x]);
    }
    if lcp(km, key) < t {
        assert(km[lcp(km, key)] == key[lcp(km, key)]);
    }
    lemma_prefix_arcs(ns, key, v, q, t - 1);
    assert forall|x: int| 0 <= x < t implies last_out_of(#[trigger] nsn[x]) == last_out_of(ns1[x]) by {
        assert(nsn[x] == ns1[x]);
    }
    lemma_path_sum_agree(nsn, ns1, t);
    lemma_prefix_sums(ns, key, v, q, t);
    lemma_prefix_walk_closed(ns, v, t);
    assert(nsn[t - 1] == ns1[t - 1]);
    assert(ns[t].is_final);
}

/// Every key added before is still found after adding a key that sorts after the
/// last one and does not extend it.
pub proof fn lemma_step_found(b: BuilderV, keys: Seq<Seq<u8>>, vals: Seq<u64>, key: Seq<u8>, v: u64, m: int)
    requires
        build_inv(b, keys, vals),
        diverges_before(keys.last(), key),
        add_spec(b, key, v).enc.bytes.len() <= u32::MAX,
        0 <= m < keys.len(),
    ensures
        found_earlier(add_spec(b, key, v).stack, add_spec(b, key, v).enc.bytes, key, keys[m], vals[m]),
{
    let n = keys.len() as int;
    let km = keys[m];
    let last = keys.last();
    lemma_lcp(last, key);
    if m == n - 1 {
        lemma_found_last_key(b, keys, vals, key, v);
        assert(!prefix_before(last, key));
    } else {
        assert(found_earlier(b.stack, b.enc.bytes, last, km, vals[m]));
        lemma_lcp(km, last);
        lemma_lcp(km, key);
        if diverges_before(km, last) {
            lemma_diverges_trans(km, last, key);
            assert(!prefix_before(km, key));
            if lcp(km, last) <= match_len(b.stack, key) {
                lemma_found_old_low(b, keys, vals, key, v, km, vals[m]);
            } else {
                lemma_found_old_high(b, keys, vals, key, v, km, vals[m]);
            }
        } else if km.len() <= match_len(b.stack, key) {
            lemma_step_frame(b, keys, vals, key, v);
            let nsn = add_spec(b, key, v).stack;
            lemma_found_on_path(b, keys, vals, key, v, km, vals[m], nsn);
            assert(!diverges_before(km, key));
        } else {
            lemma_found_old_high(b, keys, vals, key, v, km, vals[m]);
            assert(!prefix_before(km, key));
        }
    }
}

/// Nodes whose last arcs carry no output add nothing to the path sum.
pub proof fn lemma_path_sum_flat(ns: Seq<NodeV>, lo: int, k: int)
    requires
        0 <= lo <= k,
        forall|t: int| lo <= t < k ==> last_out_of(#[trigger] ns[t]) == 0,
    ensures
        path_sum(ns, k) == path_sum(ns, lo),
    decreases k - lo,
{
    if k > lo {
        lemma_path_sum_flat(ns, lo, k - 1);
    }
}

/// Matching a new key keeps the nodes on the common prefix in shape.
proof fn lemma_matched_node(ns: Seq<NodeV>, key: Seq<u8>, v: u64, q: int, i: int, label: u8)
    requires
        stack_ok(ns, q),
        match_len(ns, key) <= q,
        0 <= i <= match_len(ns, key),
        path_node_ok(ns[i], label),
    ensures
        path_node_ok(prefix_stack(ns, key, v)[i], label),
        prefix_stack(ns, key, v)[i].states.last().is_final == ns[i].states.last().is_final,
{
    reveal(path_node_ok);
    crate::state::lemma_match_len_bound(ns, key, 0);
    lemma_prefix_arcs(ns, key, v, q, i);
    let n0 = ns[i].states;
    let n1 = prefix_stack(ns, key, v)[i].states;
    assert forall|x: int, y: int| 0 <= x < y < n1.len() implies #[trigger] n1[x]._in < #[trigger] n1[y]._in by {
        assert(n1[x]._in == n0[x]._in);
        assert(n1[y]._in == n0[y]._in);
        assert(n0[x]._in < n0[y]._in);
    }
    assert(n1[n1.len() - 1]._in == n0[n0.len() - 1]._in);
}

/// A node that gains an arc with a greater label than all of its arcs keeps its shape.
proof fn lemma_grown_node(n0: NodeV, n2: NodeV, label: u8, s: State)
    requires
        path_node_ok(n0, label),
        n2.states.len() == n0.states.len() + 1,
        forall|j: int| 0 <= j < n0.states.len() ==> (#[trigger] n2.states[j])._in == n0.states[j]._in,
        n2.states.last() == s,
        label < s._in,
        n2.is_final == n0.is_final,
        n2.final_output == n0.final_output,
    ensures
        path_node_ok(n2, s._in),
{
    reveal(path_node_ok);
    let l = n0.states.len();
    let a0 = n0.states;
    let a2 = n2.states;
    assert forall|x: int, y: int| 0 <= x < y < a2.len() implies #[trigger] a2[x]._in < #[trigger] a2[y]._in by {
        assert(a2[x]._in == a0[x]._in);
        if y < l {
            assert(a2[y]._in == a0[y]._in);
            assert(a0[x]._in < a0[y]._in);
        } else if x < l - 1 {
            assert(a0[x]._in < a0[l - 1]._in);
        }
    }
}

/// A node of one arc with no final output of its own is in shape.
proof fn lemma_single_node(n: NodeV, label: u8)
    requires
        n.states.len() == 1,
        n.states.last()._in == label,
        n.final_output == 0,
    ensures
        path_node_ok(n, label),
{
    reveal(path_node_ok);
}

/// The nodes above the level where the new key parts keep their shape and
/// their finality.
proof fn lemma_nodes_upper(ns: Seq<NodeV>, nsn: Seq<NodeV>, key: Seq<u8>, v: u64, q: int, last: Seq<u8>)
    requires
        stack_ok(ns, q),
        match_len(ns, key) <= q,
        q == last.len(),
        nsn.len() >= match_len(ns, key),
        forall|i: int| 0 <= i < match_len(ns, key) ==> nsn[i] == #[trigger] prefix_stack(ns, key, v)[i],
        forall|i: int| 0 <= i < q ==> path_node_ok(#[trigger] ns[i], last[i]),
        forall|i: int| 0 <= i < match_len(ns, key) ==> last[i] == key[i],
    ensures
        forall|i: int| 0 <= i < match_len(ns, key) ==> path_node_ok(#[trigger] nsn[i], key[i])
            && nsn[i].states.last().is_final == ns[i].states.last().is_final && nsn[i].is_final == ns[i].is_final,
{
    let p = match_len(ns, key);
    assert forall|i: int| 0 <= i < p implies path_node_ok(#[trigger] nsn[i], key[i])
        && nsn[i].states.last().is_final == ns[i].states.last().is_final && nsn[i].is_final == ns[i].is_final by {
        assert(path_node_ok(ns[i], last[i]));
        lemma_matched_node(ns, key, v, q, i, last[i]);
        lemma_prefix_arcs(ns, key, v, q, i);
        assert(nsn[i] == prefix_stack(ns, key, v)[i]);
        assert(last[i] == key[i]);
    }
}

/// The node where the new key parts keeps its shape.
proof fn lemma_nodes_mid(ns: Seq<NodeV>, n2: NodeV, key: Seq<u8>, v: u64, q: int, label: u8, a: u64, s: State)
    requires
        stack_ok(ns, q),
        match_len(ns, key) < q,
        path_node_ok(ns[match_len(ns, key)], label),
        ({
            let n1 = prefix_stack(ns, key, v)[match_len(ns, key)];
            let l = n1.states.len();
            &&& l >= 1
            &&& n2.states.len() == l + 1
            &&& forall|j: int| 0 <= j < l - 1 ==> n2.states[j] == #[trigger] n1.states[j]
            &&& n2.states[l - 1] == state_with_target(n1.states.last(), a)
            &&& n2.is_final == n1.is_final
            &&& n2.final_output == n1.final_output
        }),
        n2.states.last() == s,
        label < s._in,
        s.final_out == 0,
    ensures
        path_node_ok(n2, s._in),
{
    let p = match_len(ns, key);
    crate::state::lemma_match_len_bound(ns, key, 0);
    let n1 = prefix_stack(ns, key, v)[p];
    let l = n1.states.len();
    lemma_matched_node(ns, key, v, q, p, label);
    assert forall|j: int| 0 <= j < l implies (#[trigger] n2.states[j])._in == n1.states[j]._in by {
        if j < l - 1 {
            assert(n2.states[j] == n1.states[j]);
        }
    }
    lemma_grown_node(n1, n2, label, s);
}

/// The nodes below the level where the new key parts hold one arc each.
proof fn lemma_nodes_lower(nsn: Seq<NodeV>, key: Seq<u8>, p: int, out: u64)
    requires
        0 <= p < key.len(),
        nsn.len() > key.len(),
        forall|i: int| p < i < key.len() ==> (#[trigger] nsn[i]).states.len() == 1 && !nsn[i].is_final
            && nsn[i].final_output == 0,
        forall|i: int| p <= i < key.len() ==> (#[trigger] nsn[i]).states.last()
            == suffix_arc(key.subrange(p, key.len() as int), i - p, out),
    ensures
        forall|i: int| p < i < key.len() ==> path_node_ok(#[trigger] nsn[i], key[i])
            && (i < key.len() - 1 ==> !nsn[i].states.last().is_final),
        nsn[key.len() - 1].states.last().is_final,
        p < key.len() - 1 ==> !nsn[p].states.last().is_final,
{
    let rest = key.subrange(p, key.len() as int);
    assert forall|i: int| p < i < key.len() implies path_node_ok(#[trigger] nsn[i], key[i])
        && (i < key.len() - 1 ==> !nsn[i].states.last().is_final) by {
        assert(nsn[i].states.last() == suffix_arc(rest, i - p, out));
        assert(rest[i - p] == key[i]);
        lemma_single_node(nsn[i], key[i]);
    }
    assert(nsn[key.len() - 1].states.last() == suffix_arc(rest, key.len() - 1 - p, out));
    assert(nsn[p].states.last() == suffix_arc(rest, 0, out));
}

/// A prefix of the last key that is a key stays one when a key is added, and
/// is the same prefix of the new key where the two agree.
proof fn lemma_key_prefix_moves(keys: Seq<Seq<u8>>, last: Seq<u8>, key: Seq<u8>, i: int)
    requires
        0 <= i,
        i + 1 <= last.len(),
        i + 1 <= key.len(),
        forall|x: int| 0 <= x <= i ==> last[x] == key[x],
        is_key(keys, last.subrange(0, i + 1)),
    ensures
        is_key(keys.push(key), key.subrange(0, i + 1)),
{
    let m = choose|m: int| 0 <= m < keys.len() && #[trigger] keys[m] == last.subrange(0, i + 1);
    assert(last.subrange(0, i + 1) =~= key.subrange(0, i + 1));
    assert(keys.push(key)[m] == keys[m]);
}

/// The finality facts of the invariant after adding a key that parts from the
/// last key at level `p`.
proof fn lemma_step_flags(ns: Seq<NodeV>, nsn: Seq<NodeV>, keys: Seq<Seq<u8>>, last: Seq<u8>, key: Seq<u8>, p: int,
    rest: Seq<u8>, out: u64)
    requires
        0 <= p < last.len(),
        p < key.len(),
        forall|x: int| 0 <= x < p ==> last[x] == key[x],
        nsn.len() > key.len(),
        ns.len() > last.len(),
        forall|t: int| 0 <= t < p ==> (#[trigger] nsn[t]).states.last().is_final == ns[t].states.last().is_final
            && nsn[t].is_final == ns[t].is_final,
        nsn[p].is_final == ns[p].is_final,
        rest == key.subrange(p, key.len() as int),
        forall|i: int| p <= i < key.len() ==> (#[trigger] nsn[i]).states.last() == suffix_arc(rest, i - p, out),
        forall|i: int| p < i < key.len() ==> !(#[trigger] nsn[i]).is_final,
        !ns[0].is_final,
        forall|i: int| 1 <= i < last.len() ==> (#[trigger] ns[i]).is_final == ns[i - 1].states.last().is_final,
        forall|i: int| 0 <= i < last.len() - 1 && (#[trigger] ns[i]).states.last().is_final
            ==> is_key(keys, last.subrange(0, i + 1)),
    ensures
        !nsn[0].is_final,
        forall|i: int| 1 <= i < key.len() ==> (#[trigger] nsn[i]).is_final == nsn[i - 1].states.last().is_final,
        forall|i: int| 0 <= i < key.len() - 1 && (#[trigger] nsn[i]).states.last().is_final
            ==> is_key(keys.push(key), key.subrange(0, i + 1)),
{
    let q2 = key.len() as int;
    assert forall|i: int| 1 <= i < q2 implies (#[trigger] nsn[i]).is_final == nsn[i - 1].states.last().is_final by {
        if i < p {
            assert(ns[i].is_final == ns[i - 1].states.last().is_final);
            assert(nsn[i - 1].states.last().is_final == ns[i - 1].states.last().is_final);
        } else if i == p {
            assert(ns[p].is_final == ns[p - 1].states.last().is_final);
            assert(nsn[p - 1].states.last().is_final == ns[p - 1].states.last().is_final);
        } else if i == p + 1 {
            assert(nsn[p].states.last() == suffix_arc(rest, 0, out));
        } else {
            assert(nsn[i - 1].states.last() == suffix_arc(rest, i - 1 - p, out));
        }
    }
    assert forall|i: int| 0 <= i < q2 - 1 && (#[trigger] nsn[i]).states.last().is_final
        implies is_key(keys.push(key), key.subrange(0, i + 1)) by {
        if i < p {
            assert(ns[i].states.last().is_final);
            lemma_key_prefix_moves(keys, last, key, i);
        } else {
            assert(nsn[i].states.last() == suffix_arc(rest, i - p, out));
        }
    }
    if p > 0 {
        assert(nsn[0].is_final == ns[0].is_final);
    }
}

/// The nodes on the path of the new key have rising labels along which it is
/// spelled, the nodes below final arcs are final, only arcs that end keys are
/// final, and the last arc ends the new key.
#[verifier::spinoff_prover]
#[verifier::rlimit(80)]
proof fn lemma_step_nodes(b: BuilderV, keys: Seq<Seq<u8>>, vals: Seq<u64>, key: Seq<u8>, v: u64)
    requires
        build_inv(b, keys, vals),
        diverges_before(keys.last(), key),
        add_spec(b, key, v).enc.bytes.len() <= u32::MAX,
    ensures
        nodes_ok(add_spec(b, key, v).stack, key, keys.push(key)),
{
    let last = keys.last();
    let q = last.len() as int;
    let ns = b.stack;
    lemma_step_frame(b, keys, vals, key, v);
    lemma_inv_stack(b, keys, vals);
    lemma_lcp(last, key);
    let p = match_len(ns, key);
    let ns1 = matched(b, key, v);
    let nsn = add_spec(b, key, v).stack;
    let q2 = key.len() as int;
    let rest = key.subrange(p, key.len() as int);
    let out = rest_out(ns, v, p) as u64;
    lemma_nodes_upper(ns, nsn, key, v, q, last);
    let s = suffix_arc(rest, 0, out);
    assert(nsn[p].states.last() == s);
    lemma_nodes_mid(ns, nsn[p], key, v, q, last[p], step_freeze(b, key, v).2 as u64, s);
    lemma_nodes_lower(nsn, key, p, out);
    lemma_prefix_arcs(ns, key, v, q, p);
    assert(nsn[p].is_final == ns[p].is_final);
    lemma_step_flags(ns, nsn, keys, last, key, p, rest, out);
    assert(nsn[q2 - 1].states.last() == suffix_arc(rest, q2 - 1 - p, out));
    assert(s._in == key[p]);
    assert forall|i: int| 0 <= i < q2 implies path_node_ok(#[trigger] nsn[i], key[i]) by {
        if i == p {
            assert(path_node_ok(nsn[p], s._in));
        }
    }
}

/// The sums along the path of the new key: what lies above the level where it
/// parts keeps the shares of the matched stack, the new arc brings the sum to the
/// new value, and nothing below adds to it; no sum overflows.
proof fn lemma_step_sums(ns: Seq<NodeV>, nsn: Seq<NodeV>, key: Seq<u8>, v: u64, last: Seq<u8>, a: u64)
    requires
        stack_ok(ns, last.len() as int),
        match_len(ns, key) < last.len(),
        match_len(ns, key) < key.len(),
        chain_ok(prefix_stack(ns, key, v).drop_last(), match_len(ns, key), last),
        nsn.len() == key.len() + 1,
        ({
            let p = match_len(ns, key);
            let ns1 = prefix_stack(ns, key, v);
            let l = ns1[p].states.len();
            &&& forall|t: int| 0 <= t < p ==> nsn[t] == #[trigger] ns1[t]
            &&& l >= 1
            &&& nsn[p].states.len() == l + 1
            &&& forall|j: int| 0 <= j < l - 1 ==> nsn[p].states[j] == #[trigger] ns1[p].states[j]
            &&& nsn[p].states[l - 1] == state_with_target(ns1[p].states.last(), a)
            &&& forall|i: int| p < i < key.len() ==> (#[trigger] nsn[i]).states.len() == 1
            &&& forall|i: int| p <= i < key.len() ==> (#[trigger] nsn[i]).states.last()
                == suffix_arc(key.subrange(p, key.len() as int), i - p, rest_out(ns, v, p) as u64)
        }),
    ensures
        forall|i: int, j: int| 0 <= i < key.len() && 0 <= j < nsn[i].states.len()
            ==> path_sum(nsn, i) + (#[trigger] nsn[i].states[j]).out <= u64::MAX,
        path_sum(nsn, key.len() as int) == v,
{
    let q = last.len() as int;
    let q2 = key.len() as int;
    let p = match_len(ns, key);
    let ns1 = prefix_stack(ns, key, v);
    let nsd = ns1.drop_last();
    let l = ns1[p].states.len();
    let rest = key.subrange(p, key.len() as int);
    let out = rest_out(ns, v, p) as u64;
    crate::state::lemma_match_len_bound(ns, key, 0);
    assert(ns1.len() == ns.len());
    assert forall|t: int| 0 <= t < p implies last_out_of(#[trigger] nsn[t]) == last_out_of(ns1[t]) by {
        assert(nsn[t] == ns1[t]);
    }
    assert forall|t: int| 0 <= t < q implies last_out_of(#[trigger] nsd[t]) == last_out_of(ns1[t]) by {
        assert(nsd[t] == ns1[t]);
    }
    assert forall|t: int| 0 <= t <= p implies path_sum(nsn, t) == path_sum(nsd, t) by {
        lemma_path_sum_agree(nsn, ns1, t);
        lemma_path_sum_agree(nsd, ns1, t);
    }
    lemma_prefix_walk_closed(ns, v, p);
    lemma_prefix_sums(ns, key, v, q, p);
    lemma_path_sum_agree(nsd, ns1, p);
    lemma_path_sum_nonneg(ns, p);
    assert(nsn[p].states.last() == suffix_arc(rest, 0, out));
    assert(nsn[p].states[l as int].out == out);
    assert(path_sum(nsn, p + 1) == v);
    assert forall|t: int| p + 1 <= t < q2 implies last_out_of(#[trigger] nsn[t]) == 0 by {
        assert(nsn[t].states.last() == suffix_arc(rest, t - p, out));
    }
    assert forall|t: int| p + 1 <= t <= q2 implies path_sum(nsn, t) == v by {
        lemma_path_sum_flat(nsn, p + 1, t);
    }
    assert forall|i: int, j: int| 0 <= i < q2 && 0 <= j < nsn[i].states.len()
        implies path_sum(nsn, i) + (#[trigger] nsn[i].states[j]).out <= u64::MAX by {
        if i < p {
            assert(nsn[i] == nsd[i]);
            assert(path_sum(nsd, i) + nsd[i].states[j].out <= u64::MAX);
        } else if i == p {
            assert(nsd[p] == ns1[p]);
            if j < l - 1 {
                assert(nsn[p].states[j] == ns1[p].states[j]);
                assert(path_sum(nsd, p) + nsd[p].states[j].out <= u64::MAX);
            } else if j == l - 1 {
                assert(path_sum(nsd, p) + nsd[p].states[j].out <= u64::MAX);
            }
        } else {
            assert(j == 0);
            assert(nsn[i].states.last() == suffix_arc(rest, i - p, out));
        }
    }
}

/// Adding a key that sorts after the last one and does not extend it keeps the
/// invariant and only appends bytes.
pub proof fn lemma_add_step(b: BuilderV, keys: Seq<Seq<u8>>, vals: Seq<u64>, key: Seq<u8>, v: u64)
    requires
        build_inv(b, keys, vals),
        diverges_before(keys.last(), key),
        add_spec(b, key, v).enc.bytes.len() <= u32::MAX,
    ensures
        add_ok(b, key, v),
        is_prefix(b.enc.bytes, add_spec(b, key, v).enc.bytes),
        build_inv(add_spec(b, key, v), keys.push(key), vals.push(v)),
{
    let n = keys.len() as int;
    let last = keys.last();
    let ns = b.stack;
    let b2 = add_spec(b, key, v);
    let keys2 = keys.push(key);
    let vals2 = vals.push(v);
    lemma_step_frame(b, keys, vals, key, v);
    lemma_inv_stack(b, keys, vals);
    lemma_step_nodes(b, keys, vals, key, v);
    lemma_step_sums(ns, b2.stack, key, v, last, step_freeze(b, key, v).2 as u64);
    assert forall|m: int| 0 <= m < n implies found_earlier(b2.stack, b2.enc.bytes, key, #[trigger] keys2[m], vals2[m]) by {
        lemma_step_found(b, keys, vals, key, v, m);
        assert(keys2[m] == keys[m]);
        assert(vals2[m] == vals[m]);
    }
    assert(keys2[n] == key);
    assert(vals2[n] == v);
}

/// Adding a key that extends the last key compiles nothing: the matched stack
/// stays, and the rest of the key hangs below its top node, which gains one arc.
proof fn lemma_extend_frame(b: BuilderV, keys: Seq<Seq<u8>>, vals: Seq<u64>, key: Seq<u8>, v: u64)
    requires
        build_inv(b, keys, vals),
        prefix_before(keys.last(), key),
    ensures
        ({
            let q = keys.last().len() as int;
            let ns1 = matched(b, key, v);
            let nsn = add_spec(b, key, v).stack;
            let rest = key.subrange(q, key.len() as int);
            let out = rest_out(b.stack, v, q) as u64;
            &&& add_ok(b, key, v)
            &&& match_len(b.stack, key) == q
            &&& add_spec(b, key, v).enc == b.enc
            &&& ns1.len() == q + 1
            &&& nsn.len() == key.len() + 1
            &&& forall|t: int| 0 <= t < q ==> nsn[t] == #[trigger] ns1[t]
            &&& nsn[q].states.len() == 1
            &&& nsn[q].is_final
            &&& nsn[q].final_output == 0
            &&& forall|i: int| q < i < key.len() ==> (#[trigger] nsn[i]).states.len() == 1 && !nsn[i].is_final
                && nsn[i].final_output == 0
            &&& forall|i: int| q <= i < key.len() ==> (#[trigger] nsn[i]).states.last() == suffix_arc(rest, i - q, out)
            &&& nsn[key.len() as int] == empty_node(true)
            &&& forall|x: int| 0 <= x < q ==> keys.last()[x] == key[x]
        }),
{
    let last = keys.last();
    let q = last.len() as int;
    let ns = b.stack;
    lemma_add_ok(b, keys, vals, key, v);
    lemma_inv_stack(b, keys, vals);
    lemma_lcp(last, key);
    let ns1 = prefix_stack(ns, key, v);
    assert(ns1.len() == q + 1);
    assert(ns1[q] == prefix_node(ns, key, v, q));
    assert(ns1[q].states.len() == 0);
    assert(freeze_loop(ns1, b.enc, q, -1i64) == (ns1, b.enc, -1i64));
    let ns2 = top_last_target(ns1, (-1i64) as u64);
    assert(ns2 =~= ns1);
    let rest = key.subrange(q, key.len() as int);
    let out = rest_out(ns, v, q) as u64;
    assert(add_spec(b, key, v) == BuilderV { stack: suffix_stack(ns1, rest, out), enc: b.enc });
    lemma_suffix_shape(ns1, rest, out);
}

/// The nodes after adding a key that extends the last key are in shape: the
/// last key now ends on the new key's path.
#[verifier::spinoff_prover]
#[verifier::rlimit(60)]
proof fn lemma_extend_nodes(b: BuilderV, keys: Seq<Seq<u8>>, vals: Seq<u64>, key: Seq<u8>, v: u64)
    requires
        build_inv(b, keys, vals),
        prefix_before(keys.last(), key),
    ensures
        nodes_ok(add_spec(b, key, v).stack, key, keys.push(key)),
{
    let last = keys.last();
    let q = last.len() as int;
    let n = keys.len() as int;
    let ns = b.stack;
    let ns1 = matched(b, key, v);
    let nsn = add_spec(b, key, v).stack;
    let q2 = key.len() as int;
    let rest = key.subrange(q, key.len() as int);
    let out = rest_out(ns, v, q) as u64;
    lemma_extend_frame(b, keys, vals, key, v);
    lemma_inv_stack(b, keys, vals);
    assert forall|i: int| 0 <= i < q implies path_node_ok(#[trigger] nsn[i], key[i])
        && nsn[i].states.last().is_final == ns[i].states.last().is_final && nsn[i].is_final == ns[i].is_final by {
        assert(path_node_ok(ns[i], last[i]));
        lemma_matched_node(ns, key, v, q, i, last[i]);
        lemma_prefix_arcs(ns, key, v, q, i);
    }
    assert forall|i: int| q <= i < q2 implies path_node_ok(#[trigger] nsn[i], key[i]) by {
        assert(nsn[i].states.last() == suffix_arc(rest, i - q, out));
        assert(rest[i - q] == key[i]);
        lemma_single_node(nsn[i], key[i]);
    }
    assert forall|i: int| 1 <= i < q2 implies (#[trigger] nsn[i]).is_final == nsn[i - 1].states.last().is_final by {
        if i < q {
            assert(ns[i].is_final == ns[i - 1].states.last().is_final);
        } else if i == q {
            assert(ns[q - 1].states.last().is_final);
        } else {
            assert(nsn[i - 1].states.last() == suffix_arc(rest, i - 1 - q, out));
        }
    }
    assert forall|i: int| 0 <= i < q2 - 1 && (#[trigger] nsn[i]).states.last().is_final
        implies is_key(keys.push(key), key.subrange(0, i + 1)) by {
        if i < q - 1 {
            assert(ns[i].states.last().is_final);
            lemma_key_prefix_moves(keys, last, key, i);
        } else if i == q - 1 {
            assert(last =~= key.subrange(0, q));
            assert(keys.push(key)[n - 1] == last);
        } else {
            assert(nsn[i].states.last() == suffix_arc(rest, i - q, out));
        }
    }
    assert(nsn[q2 - 1].states.last() == suffix_arc(rest, q2 - 1 - q, out));
    assert(!nsn[0].is_final);
}

/// The sums along the path of a key that extends the last key: the matched stack
/// holds the shares of the new value, the new arc the rest, and the last key
/// keeps its value through the final output its arc was given.
#[verifier::spinoff_prover]
#[verifier::rlimit(60)]
proof fn lemma_extend_sums(b: BuilderV, keys: Seq<Seq<u8>>, vals: Seq<u64>, key: Seq<u8>, v: u64)
    requires
        build_inv(b, keys, vals),
        prefix_before(keys.last(), key),
    ensures
        ({
            let nsn = add_spec(b, key, v).stack;
            &&& forall|i: int, j: int| 0 <= i < key.len() && 0 <= j < nsn[i].states.len()
                ==> path_sum(nsn, i) + (#[trigger] nsn[i].states[j]).out <= u64::MAX
            &&& path_sum(nsn, key.len() as int) == v
            &&& on_path(nsn, keys.last(), vals.last())
        }),
{
    let last = keys.last();
    let q = last.len() as int;
    let ns = b.stack;
    let ns1 = matched(b, key, v);
    let nsn = add_spec(b, key, v).stack;
    let q2 = key.len() as int;
    let rest = key.subrange(q, key.len() as int);
    let out = rest_out(ns, v, q) as u64;
    lemma_extend_frame(b, keys, vals, key, v);
    lemma_inv_stack(b, keys, vals);
    crate::state::lemma_match_len_bound(ns, key, 0);
    assert forall|t: int| 0 <= t < q implies last_out_of(#[trigger] nsn[t]) == last_out_of(ns1[t]) by {
        assert(nsn[t] == ns1[t]);
    }
    assert forall|t: int| 0 <= t <= q implies path_sum(nsn, t) == path_sum(ns1, t) by {
        lemma_path_sum_agree(nsn, ns1, t);
    }
    lemma_prefix_walk_closed(ns, v, q);
    lemma_prefix_sums(ns, key, v, q, q);
    lemma_path_sum_nonneg(ns, q);
    assert(nsn[q].states.last() == suffix_arc(rest, 0, out));
    assert(nsn[q].states[0].out == out);
    assert(path_sum(nsn, q + 1) == v);
    assert forall|t: int| q + 1 <= t < q2 implies last_out_of(#[trigger] nsn[t]) == 0 by {
        assert(nsn[t].states.last() == suffix_arc(rest, t - q, out));
    }
    assert forall|t: int| q + 1 <= t <= q2 implies path_sum(nsn, t) == v by {
        lemma_path_sum_flat(nsn, q + 1, t);
    }
    assert forall|i: int, j: int| 0 <= i < q2 && 0 <= j < nsn[i].states.len()
        implies path_sum(nsn, i) + (#[trigger] nsn[i].states[j]).out <= u64::MAX by {
        if i < q {
            assert(nsn[i] == ns1[i]);
            lemma_prefix_arcs(ns, key, v, q, i);
            lemma_prefix_sums(ns, key, v, q, i);
            lemma_prefix_walk_closed(ns, v, i);
            lemma_path_sum_nonneg(ns, i);
            assert(path_sum(ns, i) + ns[i].states[j].out <= u64::MAX);
            if j == ns[i].states.len() - 1 {
                lemma_prefix_sums(ns, key, v, q, i + 1);
                lemma_path_sum_agree(nsn, ns1, i + 1);
                assert(path_sum(ns1, i + 1) == path_sum(ns1, i) + ns1[i].states[j].out);
            }
        } else if i == q {
            assert(j == 0);
        } else {
            assert(j == 0);
            assert(nsn[i].states.last() == suffix_arc(rest, i - q, out));
        }
    }
    lemma_prefix_arcs(ns, key, v, q, q - 1);
    assert(nsn[q - 1] == ns1[q - 1]);
    assert(ns[q].is_final);
}

/// A key that parts from the last key parts from a key that extends it at the same place.
proof fn lemma_diverges_extend(km: Seq<u8>, last: Seq<u8>, key: Seq<u8>)
    requires
        diverges_before(km, last),
        prefix_before(last, key),
    ensures
        diverges_before(km, key),
        lcp(km, key) == lcp(km, last),
{
    lemma_lcp(km, last);
    lemma_lcp(last, key);
    let d = lcp(km, last);
    assert forall|t: int| 0 <= t < d implies km[t] == key[t] by {
        assert(km[t] == last[t]);
    }
    assert(last[d] == key[d]);
    lemma_lcp_unique(km, key, d);
}

/// Every key added before is still found after adding a key that extends the last one.
#[verifier::spinoff_prover]
#[verifier::rlimit(60)]
proof fn lemma_extend_found(b: BuilderV, keys: Seq<Seq<u8>>, vals: Seq<u64>, key: Seq<u8>, v: u64, m: int)
    requires
        build_inv(b, keys, vals),
        prefix_before(keys.last(), key),
        0 <= m < keys.len() - 1,
    ensures
        found_earlier(add_spec(b, key, v).stack, add_spec(b, key, v).enc.bytes, key, keys[m], vals[m]),
{
    let last = keys.last();
    let q = last.len() as int;
    let ns = b.stack;
    let ns1 = matched(b, key, v);
    let nsn = add_spec(b, key, v).stack;
    let km = keys[m];
    let vm = vals[m];
    let data = b.enc.bytes;
    lemma_extend_frame(b, keys, vals, key, v);
    lemma_inv_stack(b, keys, vals);
    assert(found_earlier(ns, data, last, km, vm));
    assert(is_prefix(data, data)) by {
        assert(data.subrange(0, data.len() as int) =~= data);
    }
    lemma_lcp(km, last);
    lemma_lcp(km, key);
    if diverges_before(km, last) {
        lemma_diverges_extend(km, last, key);
        let d = lcp(km, last);
        crate::state::lemma_match_len_bound(ns, key, 0);
        lemma_prefix_arcs(ns, key, v, q, d);
        assert forall|j: int| 0 <= j < ns[d].states.len() - 1 implies nsn[d].states[j] == #[trigger] prefix_stack(ns, key, v)[d].states[j] by {
            assert(nsn[d] == ns1[d]);
        }
        assert(nsn[d] == ns1[d]);
        lemma_found_low(ns, nsn, key, v, q, d, km, vm, data, data);
        assert(!prefix_before(km, key));
    } else {
        lemma_found_on_path(b, keys, vals, key, v, km, vm, nsn);
        assert(!diverges_before(km, key));
    }
}

/// Adding a key that extends the last key keeps the invariant and writes nothing.
pub proof fn lemma_add_extend(b: BuilderV, keys: Seq<Seq<u8>>, vals: Seq<u64>, key: Seq<u8>, v: u64)
    requires
        build_inv(b, keys, vals),
        prefix_before(keys.last(), key),
    ensures
        add_ok(b, key, v),
        is_prefix(b.enc.bytes, add_spec(b, key, v).enc.bytes),
        build_inv(add_spec(b, key, v), keys.push(key), vals.push(v)),
{
    let n = keys.len() as int;
    let last = keys.last();
    let b2 = add_spec(b, key, v);
    let keys2 = keys.push(key);
    let vals2 = vals.push(v);
    lemma_extend_frame(b, keys, vals, key, v);
    lemma_extend_nodes(b, keys, vals, key, v);
    lemma_extend_sums(b, keys, vals, key, v);
    let data = b.enc.bytes;
    assert(is_prefix(data, data)) by {
        assert(data.subrange(0, data.len() as int) =~= data);
    }
    assert forall|m: int| 0 <= m < n implies found_earlier(b2.stack, b2.enc.bytes, key, #[trigger] keys2[m], vals2[m]) by {
        assert(keys2[m] == keys[m]);
        assert(vals2[m] == vals[m]);
        if m < n - 1 {
            lemma_extend_found(b, keys, vals, key, v, m);
        } else {
            lemma_lcp(last, key);
            assert(!diverges_before(last, key));
        }
    }
    assert(keys2[n] == key);
    assert(vals2[n] == v);
}

/// Adding a key that sorts after the last one keeps the invariant and only
/// appends bytes.
pub proof fn lemma_add_next(b: BuilderV, keys: Seq<Seq<u8>>, vals: Seq<u64>, key: Seq<u8>, v: u64)
    requires
        build_inv(b, keys, vals),
        key_before(keys.last(), key),
        add_spec(b, key, v).enc.bytes.len() <= u32::MAX,
    ensures
        add_ok(b, key, v),
        is_prefix(b.enc.bytes, add_spec(b, key, v).enc.bytes),
        build_inv(add_spec(b, key, v), keys.push(key), vals.push(v)),
{
    if diverges_before(keys.last(), key) {
        lemma_add_step(b, keys, vals, key, v);
    } else {
        lemma_add_extend(b, keys, vals, key, v);
    }
}

/// The builder as it starts: one empty root node and no bytes written.
pub open spec fn start_state() -> BuilderV {
    BuilderV { stack: seq![empty_node(false)], enc: EncV { bytes: Seq::empty(), last_frozen: 0, position: 0 } }
}

/// Adding a first key sets up the invariant.
pub proof fn lemma_add_first(key: Seq<u8>, v: u64)
    requires
        key.len() >= 1,
    ensures
        add_ok(start_state(), key, v),
        add_spec(start_state(), key, v).enc == start_state().enc,
        build_inv(add_spec(start_state(), key, v), seq![key], seq![v]),
{
    let b = start_state();
    let ns = b.stack;
    let q = key.len() as int;
    assert(match_len_from(ns, key, 0) == 0);
    assert(match_len(ns, key) == 0);
    let ns1 = prefix_stack(ns, key, v);
    assert(ns1[0].states =~= Seq::<State>::empty());
    assert(ns1 =~= ns);
    assert(freeze_loop(ns1, b.enc, 0, -1i64) == (ns1, b.enc, -1i64));
    let ns2 = top_last_target(ns1, (-1i64) as u64);
    assert(ns2 =~= ns1);
    assert(rest_out(ns, v, 0) == v);
    assert(key.subrange(0, q) =~= key);
    let nsn = add_spec(b, key, v).stack;
    assert(nsn == suffix_stack(ns, key, v));
    lemma_suffix_shape(ns, key, v);
    assert forall|i: int| 0 <= i < q implies path_node_ok(#[trigger] nsn[i], key[i]) by {
        assert(nsn[i].states.last() == suffix_arc(key, i, v));
        lemma_single_node(nsn[i], key[i]);
    }
    assert forall|i: int| 0 <= i < q - 1 implies !(#[trigger] nsn[i]).states.last().is_final by {
        assert(nsn[i].states.last() == suffix_arc(key, i, v));
    }
    assert(nsn[q - 1].states.last() == suffix_arc(key, q - 1, v));
    assert(nsn[0].states.last() == suffix_arc(key, 0, v));
    assert(path_sum(nsn, 0) == 0);
    assert(last_out_of(nsn[0]) == v);
    assert(path_sum(nsn, 1) == v);
    assert forall|t: int| 1 <= t < q implies last_out_of(#[trigger] nsn[t]) == 0 by {
        assert(nsn[t].states.last() == suffix_arc(key, t, v));
    }
    assert forall|t: int| 1 <= t <= q implies path_sum(nsn, t) == v by {
        lemma_path_sum_flat(nsn, 1, t);
    }
    assert forall|i: int, j: int| 0 <= i < q && 0 <= j < nsn[i].states.len()
        implies path_sum(nsn, i) + (#[trigger] nsn[i].states[j]).out <= u64::MAX by {
        assert(j == 0);
        assert(nsn[i].states.last() == suffix_arc(key, i, v));
    }
    assert(seq![key].last() == key);
}

} // verus!
