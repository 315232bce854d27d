use vstd::prelude::*;
use crate::builder::freeze_loop;
use crate::builder::BuilderV;
use crate::format::encode_node;
use crate::format::EncV;
use crate::node_laws::aligned;
use crate::node_laws::is_prefix;
use crate::node_laws::sorted_labels;
use crate::reading::get_walk;
use crate::state::carry;
use crate::state::empty_node;
use crate::state::last_in_of;
use crate::state::last_out_of;
use crate::state::map_last;
use crate::state::match_len;
use crate::state::match_len_from;
use crate::state::min_int;
use crate::state::prefix_node;
use crate::state::prefix_stack;
use crate::state::rest_out;
use crate::state::shared_out;
use crate::state::state_with_target;
use crate::state::NodeV;
use crate::state::State;
use crate::state::BIT_FINAL_STATE;
use crate::walk_laws::step_value;
use crate::trie_laws::is_key;

verus! {

/// The first position from `i` on where `a` and `b` differ or one of them ends.
pub open spec fn lcp_from(a: Seq<u8>, b: Seq<u8>, i: int) -> int
    decreases a.len() - i,
{
    if 0 <= i < a.len() && i < b.len() && a[i] == b[i] {
        lcp_from(a, b, i + 1)
    } else {
        i
    }
}

/// The length of the longest common prefix of `a` and `b`.
pub open spec fn lcp(a: Seq<u8>, b: Seq<u8>) -> int {
    lcp_from(a, b, 0)
}

/// `a` sorts before `b` and is not a prefix of it: they differ at a position both have.
pub open spec fn diverges_before(a: Seq<u8>, b: Seq<u8>) -> bool {
    let d = lcp(a, b);
    d < a.len() && d < b.len() && a[d] < b[d]
}

pub proof fn lemma_lcp_from(a: Seq<u8>, b: Seq<u8>, i: int)
    requires
        0 <= i,
        forall|t: int| 0 <= t < i ==> a[t] == b[t],
        i <= a.len(),
        i <= b.len(),
    ensures
        i <= lcp_from(a, b, i) <= a.len(),
        lcp_from(a, b, i) <= b.len(),
        forall|t: int| 0 <= t < lcp_from(a, b, i) ==> a[t] == b[t],
        lcp_from(a, b, i) < a.len() && lcp_from(a, b, i) < b.len() ==> a[lcp_from(a, b, i)] != b[lcp_from(a, b, i)],
    decreases a.len() - i,
{
    if 0 <= i < a.len() && i < b.len() && a[i] == b[i] {
        lemma_lcp_from(a, b, i + 1);
    }
}

/// The common prefix of two keys: where they agree and where they part.
pub proof fn lemma_lcp(a: Seq<u8>, b: Seq<u8>)
    ensures
        0 <= lcp(a, b) <= a.len(),
        lcp(a, b) <= b.len(),
        forall|t: int| 0 <= t < lcp(a, b) ==> a[t] == b[t],
        lcp(a, b) < a.len() && lcp(a, b) < b.len() ==> a[lcp(a, b)] != b[lcp(a, b)],
{
    lemma_lcp_from(a, b, 0);
}

/// The common prefix is the one position where they agree up to and differ at.
pub proof fn lemma_lcp_unique(a: Seq<u8>, b: Seq<u8>, d: int)
    requires
        0 <= d < a.len(),
        d < b.len(),
        forall|t: int| 0 <= t < d ==> a[t] == b[t],
        a[d] != b[d],
    ensures
        lcp(a, b) == d,
{
    lemma_lcp(a, b);
    if lcp(a, b) < d {
        assert(a[lcp(a, b)] == b[lcp(a, b)]);
    }
}

/// Sorting before without being a prefix is transitive, and the common prefix
/// of the outer keys is the shorter of the two common prefixes.
pub proof fn lemma_diverges_trans(a: Seq<u8>, b: Seq<u8>, c: Seq<u8>)
    requires
        diverges_before(a, b),
        diverges_before(b, c),
    ensures
        diverges_before(a, c),
        lcp(a, c) == min_int(lcp(a, b), lcp(b, c)),
{
    lemma_lcp(a, b);
    lemma_lcp(b, c);
    let d1 = lcp(a, b);
    let d2 = lcp(b, c);
    let d = min_int(d1, d2);
    assert forall|t: int| 0 <= t < d implies a[t] == c[t] by {
        assert(a[t] == b[t]);
        assert(b[t] == c[t]);
    }
    if d1 < d2 {
        assert(b[d1] == c[d1]);
    } else if d2 < d1 {
        assert(a[d2] == b[d2]);
    }
    lemma_lcp_unique(a, c, d);
}

/// The sum of the outputs of the last arcs of the first `k` nodes of the stack.
pub open spec fn path_sum(ns: Seq<NodeV>, k: int) -> int
    decreases k,
{
    if k <= 0 { 0 } else { path_sum(ns, k - 1) + last_out_of(ns[k - 1]) }
}

pub proof fn lemma_path_sum_nonneg(ns: Seq<NodeV>, k: int)
    ensures
        path_sum(ns, k) >= 0,
        forall|t: int| 0 <= t <= k ==> path_sum(ns, t) <= path_sum(ns, k),
    decreases k,
{
    if k > 0 {
        lemma_path_sum_nonneg(ns, k - 1);
    }
}

/// Two stacks that agree on their first `k` nodes have the same path sums up to `k`.
pub proof fn lemma_path_sum_agree(ns1: Seq<NodeV>, ns2: Seq<NodeV>, k: int)
    requires
        forall|t: int| 0 <= t < k ==> last_out_of(#[trigger] ns1[t]) == last_out_of(ns2[t]),
    ensures
        path_sum(ns1, k) == path_sum(ns2, k),
    decreases k,
{
    if k > 0 {
        lemma_path_sum_agree(ns1, ns2, k - 1);
    }
}

/// Along nodes that all have arcs, matching a new value `v` pushes down what the
/// path sums exceed of `v` and keeps the rest.
pub proof fn lemma_prefix_walk_closed(ns: Seq<NodeV>, v: u64, k: int)
    requires
        0 <= k <= ns.len(),
        forall|t: int| 0 <= t < k ==> (#[trigger] ns[t]).states.len() > 0,
    ensures
        carry(ns, v, k) == path_sum(ns, k) - min_int(path_sum(ns, k), v as int),
        rest_out(ns, v, k) == v - min_int(path_sum(ns, k), v as int),
    decreases k,
{
    lemma_path_sum_nonneg(ns, k);
    if k > 0 {
        lemma_prefix_walk_closed(ns, v, k - 1);
        lemma_path_sum_nonneg(ns, k - 1);
        assert(ns[k - 1].states.len() > 0);
    }
}

/// The arc as a lookup sees it: finality, final output and target.
pub open spec fn arc_view(s: State) -> State {
    State {
        flag: if s.is_final { BIT_FINAL_STATE } else { 0 },
        _in: s._in,
        out: s.out,
        final_out: s.final_out,
        target: s.target,
        next_state: 0,
        is_final: false,
    }
}

/// The value of the lookup of `key[j..]` below arc `s`, the outputs up to and
/// including `s` summing to `o`.
pub open spec fn walk_below(data: Seq<u8>, s: State, key: Seq<u8>, j: int, o: u64) -> Option<u64> {
    step_value(get_walk(data, arc_view(s), 0, key, j, o))
}

/// A node on the path of the last key: arcs with rising labels, the last one
/// carrying `label`, and no final output of its own.
#[verifier::opaque]
pub open spec fn path_node_ok(n: NodeV, label: u8) -> bool {
    &&& n.states.len() > 0
    &&& n.states.last()._in == label
    &&& sorted_labels(n.states)
    &&& n.final_output == 0
}

/// `a` is a proper prefix of `b`.
pub open spec fn prefix_before(a: Seq<u8>, b: Seq<u8>) -> bool {
    lcp(a, b) == a.len() && a.len() < b.len()
}

/// `a` sorts before `b` in byte order: they part at a byte where `a` is smaller,
/// or `a` is a proper prefix of `b`.
pub open spec fn key_before(a: Seq<u8>, b: Seq<u8>) -> bool {
    diverges_before(a, b) || prefix_before(a, b)
}

/// Key `k`, a proper prefix of the last key, ends at the last arc of node
/// `k.len() - 1`, which is final, and its value is the sum of the path's outputs
/// up to there and that arc's final output.
pub open spec fn on_path(ns: Seq<NodeV>, k: Seq<u8>, v: u64) -> bool {
    let t = k.len() as int;
    &&& 1 <= t
    &&& ns[t - 1].states.last().is_final
    &&& path_sum(ns, t) + ns[t - 1].states.last().final_out == v
}

/// Key `k`, which parts from the last key `last` at level `d`, is found below an
/// arc of node `d` other than its last, with value `v`.
pub open spec fn found_below(ns: Seq<NodeV>, data: Seq<u8>, last: Seq<u8>, k: Seq<u8>, v: u64) -> bool {
    let d = lcp(k, last);
    exists|a: int|
        0 <= a < ns[d].states.len() - 1 && (#[trigger] ns[d].states[a])._in == k[d]
            && walk_below(data, ns[d].states[a], k, d + 1, (path_sum(ns, d) + ns[d].states[a].out) as u64) == Some(v)
}

/// Where an earlier key `k` is found: below a side arc when it parts from the
/// last key, at the end of its own stretch of the path when it is a prefix of it.
pub open spec fn found_earlier(ns: Seq<NodeV>, data: Seq<u8>, last: Seq<u8>, k: Seq<u8>, v: u64) -> bool {
    &&& key_before(k, last)
    &&& diverges_before(k, last) ==> found_below(ns, data, last, k, v)
    &&& prefix_before(k, last) ==> on_path(ns, k, v)
}

/// The facts of the invariant about the nodes on the path of `last`, the last of `keys`.
pub open spec fn nodes_ok(ns: Seq<NodeV>, last: Seq<u8>, keys: Seq<Seq<u8>>) -> bool {
    let q = last.len() as int;
    &&& forall|i: int| 0 <= i < q ==> path_node_ok(#[trigger] ns[i], last[i])
    &&& !ns[0].is_final
    &&& forall|i: int| 1 <= i < q ==> (#[trigger] ns[i]).is_final == ns[i - 1].states.last().is_final
    &&& forall|i: int| 0 <= i < q - 1 && (#[trigger] ns[i]).states.last().is_final ==> is_key(keys, last.subrange(0, i + 1))
    &&& ns[q - 1].states.last().is_final
    &&& ns[q - 1].states.last().final_out == 0
}

/// The builder after adding `keys` with `vals`: the stack holds the path of the
/// last key, whose value is the sum of the path's outputs; a node below a final
/// arc is marked final, and only arcs that end keys are final; every earlier key
/// is found below an arc off that path or at the end of a stretch of it; no
/// output sum overflows.
pub open spec fn build_inv(b: BuilderV, keys: Seq<Seq<u8>>, vals: Seq<u64>) -> bool {
    let n = keys.len() as int;
    let last = keys[n - 1];
    let q = last.len() as int;
    let ns = b.stack;
    &&& n >= 1
    &&& vals.len() == n
    &&& aligned(b.enc)
    &&& q >= 1
    &&& ns.len() == q + 1
    &&& ns[q] == empty_node(true)
    &&& nodes_ok(ns, last, keys)
    &&& forall|i: int, j: int| 0 <= i < q && 0 <= j < ns[i].states.len() ==> path_sum(ns, i) + (#[trigger] ns[i].states[j]).out <= u64::MAX
    &&& path_sum(ns, q) == vals[n - 1]
    &&& forall|m: int| 0 <= m < n - 1 ==> found_earlier(ns, b.enc.bytes, last, #[trigger] keys[m], vals[m])
}

/// The common prefix matched against the stack is the common prefix with the last key.
pub proof fn lemma_match_is_lcp(ns: Seq<NodeV>, last: Seq<u8>, key: Seq<u8>)
    requires
        ns.len() == last.len() + 1,
        forall|i: int| 0 <= i < last.len() ==> last_in_of(#[trigger] ns[i]) == last[i] && ns[i].states.len() > 0,
        ns[last.len() as int].states.len() == 0,
        key_before(last, key),
    ensures
        match_len(ns, key) == lcp(last, key),
{
    lemma_lcp(last, key);
    let p = lcp(last, key);
    assert forall|i: int| 0 <= i <= p implies match_len_from(ns, key, i) == p by {
        lemma_match_from(ns, last, key, i, p);
    }
}

proof fn lemma_match_from(ns: Seq<NodeV>, last: Seq<u8>, key: Seq<u8>, i: int, p: int)
    requires
        ns.len() == last.len() + 1,
        forall|t: int| 0 <= t < last.len() ==> last_in_of(#[trigger] ns[t]) == last[t] && ns[t].states.len() > 0,
        ns[last.len() as int].states.len() == 0,
        p == lcp(last, key),
        p <= last.len(),
        p < key.len(),
        forall|t: int| 0 <= t < p ==> last[t] == key[t],
        p < last.len() ==> last[p] != key[p],
        0 <= i <= p,
    ensures
        match_len_from(ns, key, i) == p,
    decreases p - i,
{
    if i < p {
        assert(last_in_of(ns[i]) == key[i]);
        lemma_match_from(ns, last, key, i + 1, p);
    } else if i < last.len() {
        assert(last_in_of(ns[i]) == last[i]);
    }
}

/// The facts about the stack of the last key that matching a new key relies on.
pub open spec fn stack_ok(ns: Seq<NodeV>, q: int) -> bool {
    &&& q >= 1
    &&& ns.len() == q + 1
    &&& forall|i: int| 0 <= i < q ==> (#[trigger] ns[i]).states.len() > 0 && ns[i].final_output == 0
    &&& ns[q].states.len() == 0 && ns[q].final_output == 0 && ns[q].is_final
    &&& forall|i: int| 1 <= i <= q ==> (#[trigger] ns[i]).is_final == ns[i - 1].states.last().is_final
    &&& forall|i: int| 1 <= i <= q && (#[trigger] ns[i]).is_final
        ==> path_sum(ns, i) + ns[i - 1].states.last().final_out <= u64::MAX
    &&& forall|i: int, j: int| 0 <= i < q && 0 <= j < ns[i].states.len() ==> path_sum(ns, i) + (#[trigger] ns[i].states[j]).out <= u64::MAX
}

/// Matching a new key changes only outputs: the arcs of the nodes on the common
/// prefix get the carried output added, the last arcs there keep only the shared
/// output, and a last arc that ends a key takes what its node was pushed into its
/// final output.
pub proof fn lemma_prefix_arcs(ns: Seq<NodeV>, key: Seq<u8>, v: u64, q: int, k: int)
    requires
        stack_ok(ns, q),
        match_len(ns, key) <= q,
        0 <= k < ns.len(),
    ensures
        ({
            let p = match_len(ns, key);
            let n = ns[k];
            let n1 = prefix_stack(ns, key, v)[k];
            &&& n1.states.len() == n.states.len()
            &&& n1.is_final == n.is_final
            &&& n1.final_output == n.final_output
            &&& k > p ==> n1 == n
            &&& forall|j: int| 0 <= j < n.states.len() ==> {
                &&& (#[trigger] n1.states[j])._in == n.states[j]._in
                &&& n1.states[j].target == n.states[j].target
                &&& n1.states[j].is_final == n.states[j].is_final
                &&& (k < p && j == n.states.len() - 1 && ns[k + 1].is_final)
                    ==> n1.states[j].final_out == n.states[j].final_out + carry(ns, v, k + 1)
                &&& !(k < p && j == n.states.len() - 1 && ns[k + 1].is_final)
                    ==> n1.states[j].final_out == n.states[j].final_out
                &&& (k == p || (k < p && j < n.states.len() - 1)) ==> n1.states[j].out == n.states[j].out + carry(ns, v, k)
                &&& (k < p && j == n.states.len() - 1) ==> n1.states[j].out == shared_out(ns, v, k)
            }
        }),
{
    let p = match_len(ns, key);
    let n = ns[k];
    let n1 = prefix_stack(ns, key, v)[k];
    assert(n1 == prefix_node(ns, key, v, k));
    if k <= p {
        lemma_path_sum_nonneg(ns, k);
        lemma_prefix_walk_closed(ns, v, k);
        let c = carry(ns, v, k);
        assert(c >= 0 && c <= path_sum(ns, k));
        assert forall|j: int| 0 <= j < n.states.len() implies n.states[j].out + c <= u64::MAX by {
            assert(path_sum(ns, k) + ns[k].states[j].out <= u64::MAX);
        }
        if k < p {
            lemma_prefix_walk_closed(ns, v, k + 1);
            lemma_path_sum_nonneg(ns, k + 1);
            if ns[k + 1].is_final {
                assert(path_sum(ns, k + 1) + ns[k].states.last().final_out <= u64::MAX);
            }
        }
    }
}

/// After matching a new key the path sums along the common prefix are the
/// shares of the new value, and below it they are unchanged.
pub proof fn lemma_prefix_sums(ns: Seq<NodeV>, key: Seq<u8>, v: u64, q: int, k: int)
    requires
        stack_ok(ns, q),
        match_len(ns, key) <= q,
        0 <= k <= ns.len(),
        k <= q || match_len(ns, key) < q,
    ensures
        k <= match_len(ns, key) ==> path_sum(prefix_stack(ns, key, v), k) == min_int(path_sum(ns, k), v as int),
        k > match_len(ns, key) ==> path_sum(prefix_stack(ns, key, v), k) == path_sum(ns, k),
    decreases k,
{
    let p = match_len(ns, key);
    let ns1 = prefix_stack(ns, key, v);
    if k > 0 {
        lemma_prefix_sums(ns, key, v, q, k - 1);
        lemma_prefix_arcs(ns, key, v, q, k - 1);
        let n = ns[k - 1];
        let last = n.states.len() - 1;
        lemma_path_sum_nonneg(ns, k);
        if k - 1 < p {
            lemma_prefix_walk_closed(ns, v, k - 1);
            lemma_prefix_walk_closed(ns, v, k);
            assert(ns1[k - 1].states[last].out == shared_out(ns, v, k - 1));
            assert(path_sum(ns, k) == path_sum(ns, k - 1) + n.states[last].out);
        } else if k - 1 == p {
            lemma_prefix_walk_closed(ns, v, k - 1);
            assert(ns1[k - 1].states[last].out == n.states[last].out + carry(ns, v, k - 1));
        }
    }
}

proof fn lemma_arcs_extend(e: EncV, states: Seq<State>, r: int, fixed: bool)
    ensures
        is_prefix(e.bytes, crate::format::encode_arcs(e, states, r, fixed).bytes),
    decreases r,
{
    if r > 0 {
        lemma_arcs_extend(e, states, r - 1, fixed);
        let prev = crate::format::encode_arcs(e, states, r - 1, fixed);
        let cur = crate::format::encode_arcs(e, states, r, fixed);
        assert(cur.bytes.subrange(0, prev.bytes.len() as int) =~= prev.bytes);
        crate::node_laws::lemma_prefix_trans(e.bytes, prev.bytes, cur.bytes);
    } else {
        assert(e.bytes.subrange(0, e.bytes.len() as int) =~= e.bytes);
    }
}

/// Writing a node only appends bytes.
pub proof fn lemma_node_extends(e: EncV, node: NodeV)
    ensures
        is_prefix(e.bytes, encode_node(e, node).bytes),
{
    let n = node.states.len() as int;
    let fixed = n > crate::format::FIXED_ARRAY_NUM_STATE_DEEP;
    let e1 = crate::format::encode_arcs(e, node.states, n, fixed);
    lemma_arcs_extend(e, node.states, n, fixed);
    if fixed {
        let t = encode_node(e, node).bytes;
        assert(t.subrange(0, e1.bytes.len() as int) =~= e1.bytes);
        crate::node_laws::lemma_prefix_trans(e.bytes, e1.bytes, t);
    }
}

/// Freezing only appends bytes, and keeps the first `p + 1` nodes.
pub proof fn lemma_freeze_extends(ns: Seq<NodeV>, e: EncV, p: int, addr: i64)
    requires
        0 <= p,
    ensures
        is_prefix(e.bytes, freeze_loop(ns, e, p, addr).1.bytes),
        ns.len() >= p + 1 ==> freeze_loop(ns, e, p, addr).0 == ns.subrange(0, p + 1),
        ns.len() < p + 1 ==> freeze_loop(ns, e, p, addr).0 == ns,
    decreases ns.len(),
{
    if ns.len() > p + 1 && ns.len() > 0 {
        if addr == -1 {
            lemma_freeze_extends(ns.drop_last(), e, p, 0);
            assert(ns.drop_last().subrange(0, p + 1) =~= ns.subrange(0, p + 1));
        } else {
            let node = map_last(ns.last(), state_with_target(ns.last().states.last(), addr as u64));
            let e2 = encode_node(e, node);
            lemma_node_extends(e, node);
            lemma_freeze_extends(ns.drop_last(), e2, p, e2.last_frozen as i64);
            crate::node_laws::lemma_prefix_trans(e.bytes, e2.bytes, freeze_loop(ns.drop_last(), e2, p, e2.last_frozen as i64).1.bytes);
            assert(ns.drop_last().subrange(0, p + 1) =~= ns.subrange(0, p + 1));
        }
    } else {
        assert(e.bytes.subrange(0, e.bytes.len() as int) =~= e.bytes);
        if ns.len() >= p + 1 {
            assert(ns.subrange(0, p + 1) =~= ns);
        }
    }
}

/// A successful lookup that still has key bytes to go follows a real target.
pub proof fn lemma_walk_target(data: Seq<u8>, s: State, key: Seq<u8>, j: int, o: u64)
    requires
        walk_below(data, s, key, j, o) is Some,
        j < key.len(),
    ensures
        s.target > 0,
{
}

/// `key` reads `v` from level `t + 1` on, below the last arc of node `t` when that
/// arc points at `addr`.
pub open spec fn below_last(ns: Seq<NodeV>, data: Seq<u8>, t: int, addr: u64, key: Seq<u8>, v: u64) -> bool {
    walk_below(data, state_with_target(ns[t].states.last(), addr), key, t + 1, path_sum(ns, t + 1) as u64) == Some(v)
}

/// `key` reads `v` below an arc of node `d` other than its last.
pub open spec fn below_side(ns: Seq<NodeV>, data: Seq<u8>, d: int, key: Seq<u8>, v: u64) -> bool {
    exists|a: int|
        0 <= a < ns[d].states.len() - 1 && (#[trigger] ns[d].states[a])._in == key[d]
            && walk_below(data, ns[d].states[a], key, d + 1, (path_sum(ns, d) + ns[d].states[a].out) as u64) == Some(v)
}

/// The nodes below the kept prefix are ready to be compiled.
pub open spec fn chain_ok(ns: Seq<NodeV>, p: int, last: Seq<u8>) -> bool {
    &&& 0 <= p < ns.len() <= last.len()
    &&& forall|i: int| p < i < ns.len() ==> (#[trigger] ns[i]).states.len() > 0 && sorted_labels(ns[i].states)
        && last_in_of(ns[i]) == last[i]
    &&& forall|i: int, j: int| 0 <= i < ns.len() && 0 <= j < ns[i].states.len() ==> path_sum(ns, i) + (#[trigger] ns[i].states[j]).out <= u64::MAX
}

proof fn lemma_map_last_labels(n: NodeV, s: State)
    requires
        n.states.len() > 0,
        s._in == n.states.last()._in,
    ensures
        map_last(n, s).states.len() == n.states.len(),
        forall|j: int| 0 <= j < n.states.len() ==> (#[trigger] map_last(n, s).states[j])._in == n.states[j]._in,
        forall|j: int| 0 <= j < n.states.len() - 1 ==> (#[trigger] map_last(n, s).states[j]) == n.states[j],
        map_last(n, s).states.last() == s,
        sorted_labels(n.states) ==> sorted_labels(map_last(n, s).states),
{
}

pub proof fn lemma_arc_view_final(s: State)
    ensures
        crate::state::has_flag(arc_view(s).flag, BIT_FINAL_STATE) == s.is_final,
{
    assert(1u8 & 1u8 != 0 && 0u8 & 1u8 == 0) by (bit_vector);
}

/// One level of the chain: a key that reads `v` below arc `s` of node `t` (when `s`
/// is its last arc, pointing at `addr`) reads `v` below the last arc of node
/// `t - 1` pointing at the compiled node `t`.
pub proof fn lemma_enter_node(data: Seq<u8>, e: EncV, n: NodeV, addr: u64, above: State, key: Seq<u8>, t: int, o: u64, j: int, v: u64)
    requires
        aligned(e),
        n.states.len() > 0,
        sorted_labels(n.states),
        0 <= j < n.states.len(),
        0 <= t < key.len(),
        key[t] == n.states[j]._in,
        is_prefix(encode_node(e, map_last(n, state_with_target(n.states.last(), addr))).bytes, data),
        data.len() <= u32::MAX,
        above.target == crate::node_laws::node_addr(e, map_last(n, state_with_target(n.states.last(), addr))),
        o + n.states[j].out <= u64::MAX,
        j == n.states.len() - 1 ==> walk_below(data, state_with_target(n.states.last(), addr), key, t + 1, (o + n.states[j].out) as u64) == Some(v)
            && (t + 1 < key.len() ==> addr > 0),
        j < n.states.len() - 1 ==> walk_below(data, n.states[j], key, t + 1, (o + n.states[j].out) as u64) == Some(v),
    ensures
        walk_below(data, above, key, t, o) == Some(v),
{
    let node = map_last(n, state_with_target(n.states.last(), addr));
    lemma_map_last_labels(n, state_with_target(n.states.last(), addr));
    let st = arc_view(above);
    crate::node_laws::lemma_find_in_node(data, e, node, j, st, 0);
    let fa = crate::node_laws::found_arc(e, node, j);
    let sj = node.states[j];
    lemma_arc_view_final(sj);
    if j < n.states.len() - 1 {
        assert(sj == n.states[j]);
        if t + 1 < key.len() {
            lemma_walk_target(data, sj, key, t + 1, (o + sj.out) as u64);
        }
    }
    match crate::reading::find_target(data, st, 0, key[t]) {
        crate::reading::Step::Done((fs, fp)) => {
            assert(fs == fa);
            crate::walk_laws::lemma_walk_congruent(data, fa, fp, arc_view(sj), 0, key, t + 1, (o + sj.out) as u64);
            assert(get_walk(data, st, 0, key, t, o) == get_walk(data, fa, fp, key, t + 1, (o + sj.out) as u64));
        },
        _ => {},
    }
}

/// A lookup that has read all of `key` when it follows a final arc gives the
/// sum so far and the arc's final output.
pub proof fn lemma_path_end_walk(data: Seq<u8>, s: State, key: Seq<u8>, o: u64, v: u64)
    requires
        s.is_final,
        o + s.final_out == v,
    ensures
        walk_below(data, s, key, key.len() as int, o) == Some(v),
{
    lemma_arc_view_final(s);
}

proof fn lemma_chain_ok_drop(ns: Seq<NodeV>, p: int, last: Seq<u8>)
    requires
        chain_ok(ns, p, last),
        ns.len() > p + 1,
    ensures
        chain_ok(ns.drop_last(), p, last),
        forall|i: int| 0 <= i < ns.len() ==> path_sum(ns.drop_last(), i) == path_sum(ns, i),
{
    let ns1 = ns.drop_last();
    assert forall|i: int| 0 <= i < ns.len() implies path_sum(ns1, i) == path_sum(ns, i) by {
        lemma_path_sum_agree(ns1, ns, i);
    }
    assert forall|i: int, j: int| 0 <= i < ns1.len() && 0 <= j < ns1[i].states.len() implies path_sum(ns1, i) + (#[trigger] ns1[i].states[j]).out <= u64::MAX by {
        assert(ns1[i] == ns[i]);
        assert(path_sum(ns, i) + ns[i].states[j].out <= u64::MAX);
    }
}

/// The level step of the chain, for a key that enters node `t`.
proof fn lemma_chain_level(ns: Seq<NodeV>, e: EncV, p: int, addr: i64, data: Seq<u8>, last: Seq<u8>, key: Seq<u8>, v: u64)
    requires
        chain_ok(ns, p, last),
        ns.len() > p + 1,
        addr >= 0,
        aligned(e),
        is_prefix(encode_node(e, map_last(ns.last(), state_with_target(ns.last().states.last(), addr as u64))).bytes, data),
        data.len() <= u32::MAX,
        p < lcp(key, last),
        lcp(key, last) >= ns.len() - 1,
        ns.len() - 1 < key.len(),
        lcp(key, last) >= ns.len() ==> (ns.len() < key.len() ==> addr > 0) && below_last(ns, data, ns.len() - 1, addr as u64, key, v),
        lcp(key, last) < ns.len() ==> below_side(ns, data, lcp(key, last), key, v),
    ensures
        below_last(ns, data, ns.len() - 2,
            crate::node_laws::node_addr(e, map_last(ns.last(), state_with_target(ns.last().states.last(), addr as u64))), key, v),
{
    let t = ns.len() - 1;
    let d = lcp(key, last);
    lemma_lcp(key, last);
    let lt = ns[t].states.last();
    let node = map_last(ns[t], state_with_target(lt, addr as u64));
    let a2 = crate::node_laws::node_addr(e, node);
    assert(t < key.len());
    let above = state_with_target(ns[t - 1].states.last(), a2);
    let j = if d > t {
        ns[t].states.len() - 1
    } else {
        choose|a: int|
            0 <= a < ns[d].states.len() - 1 && (#[trigger] ns[d].states[a])._in == key[d]
                && walk_below(data, ns[d].states[a], key, d + 1, (path_sum(ns, d) + ns[d].states[a].out) as u64) == Some(v)
    };
    assert(path_sum(ns, t) + ns[t].states[j].out <= u64::MAX);
    lemma_path_sum_nonneg(ns, t + 1);
    lemma_path_sum_nonneg(ns, t);
    assert(path_sum(ns, t + 1) == path_sum(ns, t) + lt.out);
    assert(0 <= path_sum(ns, t) <= u64::MAX);
    assert((path_sum(ns, t) as u64) as int == path_sum(ns, t));
    if d > t {
        assert(key[t] == last[t]);
    }
    lemma_enter_node(data, e, ns[t], addr as u64, above, key, t, path_sum(ns, t) as u64, j, v);
}

/// Compiling the nodes below level `p`, deepest first, keeps every lookup that
/// went through them: a key that passes level `p` along the last arcs reads the
/// same below node `p`'s last arc, now pointing at the compiled node `p + 1`.
pub proof fn lemma_chain(ns: Seq<NodeV>, e: EncV, p: int, addr: i64, data: Seq<u8>, last: Seq<u8>, key: Seq<u8>, v: u64)
    requires
        chain_ok(ns, p, last),
        addr >= 0,
        aligned(e),
        is_prefix(freeze_loop(ns, e, p, addr).1.bytes, data),
        data.len() <= u32::MAX,
        p < lcp(key, last),
        lcp(key, last) >= ns.len() ==> (ns.len() < key.len() ==> addr > 0) && below_last(ns, data, ns.len() - 1, addr as u64, key, v),
        lcp(key, last) < ns.len() && lcp(key, last) < key.len() ==> below_side(ns, data, lcp(key, last), key, v),
        lcp(key, last) < ns.len() && lcp(key, last) == key.len() ==> on_path(ns, key, v),
    ensures
        below_last(ns, data, p, freeze_loop(ns, e, p, addr).2 as u64, key, v),
        p + 1 < key.len() ==> freeze_loop(ns, e, p, addr).2 > 0,
        aligned(freeze_loop(ns, e, p, addr).1),
        freeze_loop(ns, e, p, addr).2 >= 0,
        ns.len() > p + 1 ==> freeze_loop(ns, e, p, addr).2 == freeze_loop(ns, e, p, addr).1.last_frozen,
        ns.len() == p + 1 ==> freeze_loop(ns, e, p, addr).2 == addr && freeze_loop(ns, e, p, addr).1 == e,
    decreases ns.len(),
{
    let t = ns.len() - 1;
    let d = lcp(key, last);
    if t > p {
        let lt = ns[t].states.last();
        let node = map_last(ns[t], state_with_target(lt, addr as u64));
        let e2 = encode_node(e, node);
        let a2 = e2.last_frozen;
        let ns1 = ns.drop_last();
        assert(freeze_loop(ns, e, p, addr) == freeze_loop(ns1, e2, p, a2 as i64));
        lemma_freeze_extends(ns1, e2, p, a2 as i64);
        crate::node_laws::lemma_prefix_trans(e2.bytes, freeze_loop(ns1, e2, p, a2 as i64).1.bytes, data);
        crate::node_laws::lemma_node_shape(e, node);
        assert(a2 >= 2 && a2 <= u32::MAX);
        lemma_chain_ok_drop(ns, p, last);
        lemma_lcp(key, last);
        if d == t && key.len() == t {
            assert(ns1[t - 1] == ns[t - 1]);
            lemma_path_sum_nonneg(ns, t);
            lemma_path_end_walk(data, state_with_target(ns[t - 1].states.last(), a2), key, path_sum(ns, t) as u64, v);
            assert(below_last(ns1, data, t - 1, a2, key, v));
        } else if d >= t {
            lemma_chain_level(ns, e, p, addr, data, last, key, v);
            assert(ns1[t - 1] == ns[t - 1]);
            assert(below_last(ns1, data, t - 1, a2, key, v));
        } else if d == key.len() {
            assert(ns1[d - 1] == ns[d - 1]);
            assert(on_path(ns1, key, v));
        } else {
            assert(below_side(ns1, data, d, key, v)) by {
                let a = choose|a: int|
                    0 <= a < ns[d].states.len() - 1 && (#[trigger] ns[d].states[a])._in == key[d]
                        && walk_below(data, ns[d].states[a], key, d + 1, (path_sum(ns, d) + ns[d].states[a].out) as u64) == Some(v);
                assert(ns1[d] == ns[d]);
                assert(ns1[d].states[a]._in == key[d]);
            }
        }
        lemma_chain(ns1, e2, p, a2 as i64, data, last, key, v);
        assert(ns1[p] == ns[p]);
    } else {
        assert(freeze_loop(ns, e, p, addr) == (ns, e, addr));
    }
}

} // verus!
