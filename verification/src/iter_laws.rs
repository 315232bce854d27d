use vstd::prelude::*;
use crate::build_laws::diverges_before;
use crate::laws::build_bytes;
use crate::laws::build_prefix;
use crate::laws::keys_increasing;
use crate::build_laws::key_before;
use crate::build_laws::prefix_before;
use crate::trie_step::lemma_trie_extend;
use crate::laws::lemma_build_appends;
use crate::laws::lemma_build_inv_upto;
use crate::laws::lemma_finish_appends;
use crate::build_laws::lcp;
use crate::build_laws::lemma_lcp;
use crate::build_laws::lemma_lcp_unique;
use crate::node_laws::sorted_labels;
use crate::trie_laws::some_key_extends;
use crate::node_laws::found_arc;
use crate::node_laws::lemma_find_in_node;
use crate::node_laws::lemma_find_absent;
use crate::iter_steps::lemma_out_sum_agree;
use crate::error::ReadErr;
use crate::node_laws::lemma_found_arc_flags;
use crate::reading::find_target;
use crate::reading::read_from_follow;
use crate::reading::read_next_state_at;
use crate::state::BIT_LAST_STATE;
use crate::reading::get_walk;
use crate::reading::spec_get;
use crate::reading::Step;
use crate::state::fresh_state;
use crate::state::has_flag;
use crate::state::BIT_FINAL_STATE;
use crate::state::state_with_target;
use crate::walk_laws::step_value;
use crate::state::NodeV;
use crate::state::State;
use crate::trie_laws::arc_ok;
use crate::trie_laws::extends;
use crate::trie_laws::has_label;
use crate::trie_laws::is_key;
use crate::trie_laws::labels_exact;
use crate::trie_laws::longer_key;
use crate::trie_laws::map_ok;
use crate::trie_laws::placed_ok;
use crate::trie_laws::Placed;
use crate::trie_step::finish_map;
use crate::trie_step::lemma_trie_finish;
use crate::trie_step::lemma_trie_first;
use crate::trie_step::lemma_trie_step;
use crate::trie_step::step_map;
use crate::trie_step::trie_inv;

verus! {

/// The map of written nodes after the first `i` keys.
pub open spec fn build_map(keys: Seq<Seq<u8>>, vals: Seq<u64>, i: nat) -> Map<u64, Placed>
    decreases i,
{
    if i <= 1 {
        Map::empty()
    } else {
        step_map(build_prefix(keys, vals, (i - 1) as nat), keys.take(i - 1), build_map(keys, vals, (i - 1) as nat), keys[i - 1],
            vals[i - 1])
    }
}

/// The map of the nodes of the finished transducer.
pub open spec fn final_map(keys: Seq<Seq<u8>>, vals: Seq<u64>) -> Map<u64, Placed> {
    finish_map(build_prefix(keys, vals, keys.len()), keys, build_map(keys, vals, keys.len()))
}

proof fn lemma_trie_upto(keys: Seq<Seq<u8>>, vals: Seq<u64>, i: nat)
    requires
        1 <= i <= keys.len(),
        vals.len() == keys.len(),
        keys[0].len() >= 1,
        keys_increasing(keys),
        build_prefix(keys, vals, keys.len()).enc.bytes.len() <= u32::MAX,
    ensures
        trie_inv(build_prefix(keys, vals, i), keys.take(i as int), build_map(keys, vals, i)),
    decreases i,
{
    if i == 1 {
        lemma_trie_first(keys[0], vals[0]);
        assert(build_prefix(keys, vals, 0) == crate::build_step::start_state());
        assert(keys.take(1) =~= seq![keys[0]]);
    } else {
        let i1 = (i - 1) as nat;
        lemma_trie_upto(keys, vals, i1);
        lemma_build_inv_upto(keys, vals, i1);
        let b = build_prefix(keys, vals, i1);
        assert(keys.take(i1 as int).last() == keys[i - 2]);
        assert(key_before(keys[i - 2], keys[i - 1]));
        lemma_build_appends(keys, vals, i, keys.len());
        if diverges_before(keys[i - 2], keys[i - 1]) {
            lemma_trie_step(b, keys.take(i1 as int), vals.take(i1 as int), build_map(keys, vals, i1), keys[i - 1], vals[i - 1]);
        } else {
            lemma_trie_extend(b, keys.take(i1 as int), vals.take(i1 as int), build_map(keys, vals, i1), keys[i - 1], vals[i - 1]);
        }
        assert(keys.take(i1 as int).push(keys[i - 1]) =~= keys.take(i as int));
    }
}

/// The map of the finished transducer describes every node in its bytes, and the
/// root, at the end of the bytes, stands for the empty prefix.
#[verifier::spinoff_prover]
#[verifier::rlimit(40)]
pub proof fn lemma_final_map(keys: Seq<Seq<u8>>, vals: Seq<u64>)
    requires
        keys.len() >= 1,
        vals.len() == keys.len(),
        keys[0].len() >= 1,
        keys_increasing(keys),
        build_bytes(keys, vals).len() <= u32::MAX,
    ensures
        map_ok(final_map(keys, vals), build_bytes(keys, vals), keys),
        final_map(keys, vals).contains_key(build_bytes(keys, vals).len() as u64),
        final_map(keys, vals)[build_bytes(keys, vals).len() as u64].path == Seq::<u8>::empty(),
{
    let n = keys.len();
    let b = build_prefix(keys, vals, n);
    lemma_finish_appends(b);
    lemma_trie_upto(keys, vals, n);
    lemma_build_inv_upto(keys, vals, n);
    assert(keys.take(n as int) =~= keys);
    assert(vals.take(n as int) =~= vals);
    lemma_trie_finish(b, keys, vals, build_map(keys, vals, n));
}

/// The index of the node's arc with label `c`.
pub open spec fn label_index(node: NodeV, c: u8) -> int {
    choose|j: int| 0 <= j < node.states.len() && node.states[j]._in == c
}

/// The address of the node at level `t` on the path of `key`, from the root at `root`.
pub open spec fn path_addr(m: Map<u64, Placed>, root: u64, key: Seq<u8>, t: nat) -> u64
    decreases t,
{
    if t == 0 {
        root
    } else {
        let pl = m[path_addr(m, root, key, (t - 1) as nat)];
        pl.node.states[label_index(pl.node, key[t - 1])].target
    }
}

/// The arc at level `t` of the path of `key`, as it reads back.
pub open spec fn path_arc(m: Map<u64, Placed>, root: u64, key: Seq<u8>, t: nat) -> State {
    let pl = m[path_addr(m, root, key, t)];
    found_arc(pl.e, pl.node, label_index(pl.node, key[t as int]))
}

/// The path of every key runs through nodes of the map: the node at level `t`
/// stands for the key's first `t` bytes and has an arc for its next byte, which
/// ends a key exactly when that prefix is a key, and leads on to the node of the
/// longer prefix exactly when a key goes on past it.
pub proof fn lemma_key_path(m: Map<u64, Placed>, data: Seq<u8>, keys: Seq<Seq<u8>>, root: u64, i: int, t: nat)
    requires
        map_ok(m, data, keys),
        m.contains_key(root),
        m[root].path == Seq::<u8>::empty(),
        0 <= i < keys.len(),
        t < keys[i].len(),
    ensures
        ({
            let a = path_addr(m, root, keys[i], t);
            let node = m[a].node;
            let j = label_index(node, keys[i][t as int]);
            let c = keys[i].subrange(0, t + 1int);
            &&& m.contains_key(a)
            &&& m[a].path == keys[i].subrange(0, t as int)
            &&& 0 <= j < node.states.len()
            &&& node.states[j]._in == keys[i][t as int]
            &&& node.states[j].is_final == is_key(keys, c)
            &&& longer_key(keys, c) ==> node.states[j].target > 0 && m.contains_key(node.states[j].target)
                && m[node.states[j].target].path == c
            &&& !longer_key(keys, c) ==> node.states[j].target == 0
            &&& t < keys[i].len() - 1 ==> longer_key(keys, c)
        }),
    decreases t,
{
    let k = keys[i];
    let a = path_addr(m, root, k, t);
    if t == 0 {
        assert(k.subrange(0, 0) =~= Seq::<u8>::empty());
        assert(extends(k, Seq::<u8>::empty())) by {
            assert(k.subrange(0, 0) =~= Seq::<u8>::empty());
        }
    } else {
        lemma_key_path(m, data, keys, root, i, (t - 1) as nat);
        let a0 = path_addr(m, root, k, (t - 1) as nat);
        let pl0 = m[a0];
        let j0 = label_index(pl0.node, k[t - 1]);
        assert(placed_ok(a0, pl0, data, keys, m));
        assert(arc_ok(pl0.node.states[j0], pl0.path, keys, m));
        assert(pl0.path.push(k[t - 1]) =~= k.subrange(0, t as int));
        assert(extends(k, k.subrange(0, t as int))) by {
            assert(k.subrange(0, t as int).subrange(0, t as int) =~= k.subrange(0, t as int));
        }
    }
    assert(placed_ok(a, m[a], data, keys, m));
    assert(labels_exact(m[a].node, m[a].path, keys));
    assert(extends(k, m[a].path)) by {
        assert(k.subrange(0, t as int).subrange(0, t as int) =~= k.subrange(0, t as int));
    }
    assert(has_label(m[a].node, k[t as int]));
    let j = label_index(m[a].node, k[t as int]);
    assert(arc_ok(m[a].node.states[j], m[a].path, keys, m));
    let c = k.subrange(0, t + 1int);
    assert(m[a].path.push(k[t as int]) =~= c);
    if t < k.len() - 1 {
        assert(extends(k, c)) by {
            assert(k.subrange(0, c.len() as int) =~= c);
        }
    }
}

/// The common prefix does not depend on the order of the two keys.
pub proof fn lemma_lcp_sym(a: Seq<u8>, b: Seq<u8>)
    ensures
        lcp(a, b) == lcp(b, a),
{
    lemma_lcp(a, b);
    lemma_lcp(b, a);
    let d1 = lcp(a, b);
    let d2 = lcp(b, a);
    if d1 < d2 {
        assert(b[d1] == a[d1]);
    } else if d2 < d1 {
        assert(a[d2] == b[d2]);
    }
}

/// Sorting before is a strict order: never both ways, never a key before itself.
pub proof fn lemma_before_asym(x: Seq<u8>, y: Seq<u8>)
    requires
        key_before(x, y),
    ensures
        !key_before(y, x),
        x != y,
{
    lemma_lcp_sym(x, y);
    lemma_lcp(x, y);
    if x == y {
        let d = lcp(x, y);
        if d < x.len() {
            assert(x[d] == y[d]);
        }
    }
}

/// No key lies strictly between two adjacent keys of an increasing list.
pub proof fn lemma_between(keys: Seq<Seq<u8>>, a: int, x: Seq<u8>)
    requires
        keys_increasing(keys),
        0 <= a,
        a + 1 < keys.len(),
        key_before(keys[a], x),
        key_before(x, keys[a + 1]),
    ensures
        !is_key(keys, x),
{
    if is_key(keys, x) {
        let i = choose|i: int| 0 <= i < keys.len() && #[trigger] keys[i] == x;
        if i <= a {
            if i < a {
                assert(key_before(keys[i], keys[a]));
            }
            lemma_before_asym(keys[a], x);
        } else {
            if i > a + 1 {
                assert(key_before(keys[a + 1], keys[i]));
            }
            lemma_before_asym(x, keys[a + 1]);
        }
    }
}

/// A key that agrees with `k` on its first `s` bytes and is smaller at byte `s`
/// sorts before it.
pub proof fn lemma_diverges_at(x: Seq<u8>, k: Seq<u8>, s: int)
    requires
        0 <= s < x.len(),
        s < k.len(),
        forall|y: int| 0 <= y < s ==> x[y] == k[y],
        x[s] < k[s],
    ensures
        diverges_before(x, k),
        lcp(x, k) == s,
{
    lemma_lcp_unique(x, k, s);
}

/// A key that starts with `k` and is longer has `k` as a proper prefix.
pub proof fn lemma_prefix_at(k: Seq<u8>, x: Seq<u8>)
    requires
        k.len() < x.len(),
        forall|y: int| 0 <= y < k.len() ==> x[y] == k[y],
    ensures
        prefix_before(k, x),
{
    lemma_lcp(k, x);
    let d = lcp(k, x);
    if d < k.len() {
        assert(x[d] == k[d]);
    }
}

/// Among keys sorted in order, one that agrees with another up to `t` and has a
/// greater byte there comes later.
pub proof fn lemma_branch_order(keys: Seq<Seq<u8>>, a: int, i: int, t: int)
    requires
        keys_increasing(keys),
        0 <= a < keys.len(),
        0 <= i < keys.len(),
        0 <= t < keys[a].len(),
        t < keys[i].len(),
        forall|x: int| 0 <= x < t ==> keys[i][x] == keys[a][x],
        keys[a][t] < keys[i][t],
    ensures
        a < i,
{
    if i < a {
        assert(key_before(keys[i], keys[a]));
        lemma_lcp(keys[i], keys[a]);
        if diverges_before(keys[i], keys[a]) {
            lemma_lcp_unique(keys[i], keys[a], t);
        } else if lcp(keys[i], keys[a]) > t {
            assert(keys[i][t] == keys[a][t]);
        } else if lcp(keys[i], keys[a]) < t {
            let d = lcp(keys[i], keys[a]);
            assert(keys[i][d] == keys[a][d]);
        }
    }
}

/// Paths of keys that agree on their first `t` bytes reach the same node at level `t`.
pub proof fn lemma_path_addr_agree(m: Map<u64, Placed>, root: u64, k1: Seq<u8>, k2: Seq<u8>, t: nat)
    requires
        t <= k1.len(),
        t <= k2.len(),
        forall|x: int| 0 <= x < t ==> k1[x] == k2[x],
    ensures
        path_addr(m, root, k1, t) == path_addr(m, root, k2, t),
    decreases t,
{
    if t > 0 {
        lemma_path_addr_agree(m, root, k1, k2, (t - 1) as nat);
    }
}

/// The node at level `t` of a key's path has its labels sorted, each followed by
/// some key through the node.
proof fn lemma_path_node(m: Map<u64, Placed>, data: Seq<u8>, keys: Seq<Seq<u8>>, root: u64, a: int, t: nat)
    requires
        map_ok(m, data, keys),
        m.contains_key(root),
        m[root].path == Seq::<u8>::empty(),
        keys_increasing(keys),
        0 <= a < keys.len(),
        t < keys[a].len(),
    ensures
        ({
            let node = m[path_addr(m, root, keys[a], t)].node;
            &&& sorted_labels(node.states)
            &&& forall|x: int| 0 <= x < node.states.len() ==> exists|i: int| 0 <= i < keys.len() && t < keys[i].len()
                && keys[i][t as int] == (#[trigger] node.states[x])._in
                && forall|y: int| 0 <= y < t ==> keys[i][y] == keys[a][y]
        }),
{
    let ad = path_addr(m, root, keys[a], t);
    lemma_key_path(m, data, keys, root, a, t);
    let pl = m[ad];
    assert(placed_ok(ad, pl, data, keys, m));
    let node = pl.node;
    assert forall|x: int| 0 <= x < node.states.len() implies exists|i: int| 0 <= i < keys.len() && t < keys[i].len()
        && keys[i][t as int] == (#[trigger] node.states[x])._in
        && forall|y: int| 0 <= y < t ==> keys[i][y] == keys[a][y] by {
        let c = node.states[x]._in;
        assert(some_key_extends(keys, pl.path.push(c)));
        let i = choose|i: int| 0 <= i < keys.len() && #[trigger] extends(keys[i], pl.path.push(c));
        assert(keys[i].subrange(0, t + 1int)[t as int] == pl.path.push(c)[t as int]);
        assert forall|y: int| 0 <= y < t implies keys[i][y] == keys[a][y] by {
            assert(keys[i].subrange(0, t + 1int)[y] == pl.path.push(c)[y]);
            assert(keys[a].subrange(0, t as int)[y] == keys[a][y]);
        }
    }
}

/// A key's arc at level `t` is the last of its node when no key through the node
/// branches higher there.
pub proof fn lemma_index_max(m: Map<u64, Placed>, data: Seq<u8>, keys: Seq<Seq<u8>>, root: u64, a: int, t: nat)
    requires
        map_ok(m, data, keys),
        m.contains_key(root),
        m[root].path == Seq::<u8>::empty(),
        keys_increasing(keys),
        0 <= a < keys.len(),
        t < keys[a].len(),
        forall|i: int| 0 <= i < keys.len() && t < keys[i].len() && (forall|y: int| 0 <= y < t ==> keys[i][y] == keys[a][y])
            ==> #[trigger] keys[i][t as int] <= keys[a][t as int],
    ensures
        label_index(m[path_addr(m, root, keys[a], t)].node, keys[a][t as int])
            == m[path_addr(m, root, keys[a], t)].node.states.len() - 1,
{
    let node = m[path_addr(m, root, keys[a], t)].node;
    lemma_key_path(m, data, keys, root, a, t);
    lemma_path_node(m, data, keys, root, a, t);
    let j = label_index(node, keys[a][t as int]);
    let l = node.states.len();
    if j < l - 1 {
        assert(node.states[j]._in < node.states[l - 1]._in);
        let x = l - 1;
        let i = choose|i: int| 0 <= i < keys.len() && t < keys[i].len()
            && keys[i][t as int] == (#[trigger] node.states[x])._in
            && forall|y: int| 0 <= y < t ==> keys[i][y] == keys[a][y];
        assert(keys[i][t as int] <= keys[a][t as int]);
    }
}

/// A key's arc at level `t` is the first of its node when no key through the node
/// branches lower there.
pub proof fn lemma_index_min(m: Map<u64, Placed>, data: Seq<u8>, keys: Seq<Seq<u8>>, root: u64, a: int, t: nat)
    requires
        map_ok(m, data, keys),
        m.contains_key(root),
        m[root].path == Seq::<u8>::empty(),
        keys_increasing(keys),
        0 <= a < keys.len(),
        t < keys[a].len(),
        forall|i: int| 0 <= i < keys.len() && t < keys[i].len() && (forall|y: int| 0 <= y < t ==> keys[i][y] == keys[a][y])
            ==> #[trigger] keys[i][t as int] >= keys[a][t as int],
    ensures
        label_index(m[path_addr(m, root, keys[a], t)].node, keys[a][t as int]) == 0,
{
    let node = m[path_addr(m, root, keys[a], t)].node;
    lemma_key_path(m, data, keys, root, a, t);
    lemma_path_node(m, data, keys, root, a, t);
    let j = label_index(node, keys[a][t as int]);
    if j > 0 {
        assert(node.states[0]._in < node.states[j]._in);
        let x = 0int;
        let i = choose|i: int| 0 <= i < keys.len() && t < keys[i].len()
            && keys[i][t as int] == (#[trigger] node.states[x])._in
            && forall|y: int| 0 <= y < t ==> keys[i][y] == keys[a][y];
        assert(keys[i][t as int] >= keys[a][t as int]);
    }
}

/// Where two keys part, the later key's arc comes right after the earlier key's
/// when no key through the node branches between them.
pub proof fn lemma_index_succ(m: Map<u64, Placed>, data: Seq<u8>, keys: Seq<Seq<u8>>, root: u64, a: int, b: int, t: nat)
    requires
        map_ok(m, data, keys),
        m.contains_key(root),
        m[root].path == Seq::<u8>::empty(),
        keys_increasing(keys),
        0 <= a < keys.len(),
        0 <= b < keys.len(),
        t < keys[a].len(),
        t < keys[b].len(),
        forall|y: int| 0 <= y < t ==> keys[a][y] == keys[b][y],
        keys[a][t as int] < keys[b][t as int],
        forall|i: int| 0 <= i < keys.len() && t < keys[i].len() && (forall|y: int| 0 <= y < t ==> keys[i][y] == keys[a][y])
            ==> !(keys[a][t as int] < #[trigger] keys[i][t as int] && keys[i][t as int] < keys[b][t as int]),
    ensures
        path_addr(m, root, keys[a], t) == path_addr(m, root, keys[b], t),
        label_index(m[path_addr(m, root, keys[a], t)].node, keys[b][t as int])
            == label_index(m[path_addr(m, root, keys[a], t)].node, keys[a][t as int]) + 1,
{
    lemma_path_addr_agree(m, root, keys[a], keys[b], t);
    let node = m[path_addr(m, root, keys[a], t)].node;
    lemma_key_path(m, data, keys, root, a, t);
    lemma_key_path(m, data, keys, root, b, t);
    lemma_path_node(m, data, keys, root, a, t);
    let ja = label_index(node, keys[a][t as int]);
    let jb = label_index(node, keys[b][t as int]);
    if jb <= ja {
        if jb < ja {
            assert(node.states[jb]._in < node.states[ja]._in);
        }
    } else if jb > ja + 1 {
        let x = ja + 1;
        assert(node.states[ja]._in < node.states[x]._in);
        assert(node.states[x]._in < node.states[jb]._in);
        let i = choose|i: int| 0 <= i < keys.len() && t < keys[i].len()
            && keys[i][t as int] == (#[trigger] node.states[x])._in
            && forall|y: int| 0 <= y < t ==> keys[i][y] == keys[a][y];
        assert(!(keys[a][t as int] < keys[i][t as int] && keys[i][t as int] < keys[b][t as int]));
    }
}

/// The sum of the outputs of the first `t` arcs of the path of `key`.
pub open spec fn path_out_sum(m: Map<u64, Placed>, root: u64, key: Seq<u8>, t: nat) -> int
    decreases t,
{
    if t == 0 {
        0
    } else {
        path_out_sum(m, root, key, (t - 1) as nat) + path_arc(m, root, key, (t - 1) as nat).out
    }
}

/// The facts about the bytes and the map that reading a key's path relies on.
#[verifier::opaque]
pub open spec fn final_ok(m: Map<u64, Placed>, data: Seq<u8>, keys: Seq<Seq<u8>>) -> bool {
    &&& map_ok(m, data, keys)
    &&& m.contains_key(data.len() as u64)
    &&& m[data.len() as u64].path == Seq::<u8>::empty()
    &&& data.len() <= u32::MAX
    &&& keys_increasing(keys)
}

/// One level of the path of key `i`: following an arc to the node there finds the
/// path's arc; it ends a key exactly when its prefix of key `i` is one, and leads
/// on to the next level, to a real node exactly when a key goes on past it.
pub proof fn lemma_level(m: Map<u64, Placed>, data: Seq<u8>, keys: Seq<Seq<u8>>, i: int, t: nat, st: State, pos: int)
    requires
        final_ok(m, data, keys),
        0 <= i < keys.len(),
        t < keys[i].len(),
        st.target == path_addr(m, data.len() as u64, keys[i], t),
    ensures
        find_target(data, st, pos, keys[i][t as int]) matches Step::Done((d, _p)) && d == path_arc(m, data.len() as u64, keys[i], t),
        has_flag(path_arc(m, data.len() as u64, keys[i], t).flag, BIT_FINAL_STATE) == is_key(keys, keys[i].subrange(0, t + 1int)),
        path_arc(m, data.len() as u64, keys[i], t).target == path_addr(m, data.len() as u64, keys[i], t + 1),
        longer_key(keys, keys[i].subrange(0, t + 1int)) ==> path_arc(m, data.len() as u64, keys[i], t).target > 0,
        !longer_key(keys, keys[i].subrange(0, t + 1int)) ==> path_arc(m, data.len() as u64, keys[i], t).target == 0,
        t + 1 < keys[i].len() ==> longer_key(keys, keys[i].subrange(0, t + 1int)),
        t + 1 == keys[i].len() ==> is_key(keys, keys[i].subrange(0, t + 1int)),
        path_arc(m, data.len() as u64, keys[i], t)._in == keys[i][t as int],
{
    reveal(final_ok);
    lemma_level_any(m, data, keys, i, t, st, pos);
    let root = data.len() as u64;
    lemma_key_path(m, data, keys, root, i, t);
    if t + 1 == keys[i].len() {
        assert(keys[i].subrange(0, t + 1int) =~= keys[i]);
    }
}

/// A lookup of key `i` from level `t`, along its path, sums the path's outputs.
proof fn lemma_walk_path(m: Map<u64, Placed>, data: Seq<u8>, keys: Seq<Seq<u8>>, i: int, t: nat, st: State, pos: int, o: u64, v: u64)
    requires
        final_ok(m, data, keys),
        0 <= i < keys.len(),
        t <= keys[i].len(),
        keys[i].len() >= 1,
        o == path_out_sum(m, data.len() as u64, keys[i], t),
        t < keys[i].len() ==> st.target == path_addr(m, data.len() as u64, keys[i], t),
        t == keys[i].len() ==> st == path_arc(m, data.len() as u64, keys[i], (t - 1) as nat),
        step_value(get_walk(data, st, pos, keys[i], t as int, o)) == Some(v),
    ensures
        forall|s: nat| t <= s <= keys[i].len() ==> #[trigger] path_out_sum(m, data.len() as u64, keys[i], s) <= u64::MAX,
        v == path_out_sum(m, data.len() as u64, keys[i], keys[i].len() as nat)
            + path_arc(m, data.len() as u64, keys[i], (keys[i].len() - 1) as nat).final_out,
    decreases keys[i].len() - t,
{
    let root = data.len() as u64;
    let k = keys[i];
    let l = k.len() as nat;
    if t < l {
        lemma_level(m, data, keys, i, t, st, pos);
        let s2 = path_arc(m, root, k, t);
        match find_target(data, st, pos, k[t as int]) {
            Step::Done((fs, p2)) => {
                assert(o + s2.out <= u64::MAX);
                lemma_walk_path(m, data, keys, i, t + 1, s2, p2, (o + s2.out) as u64, v);
            },
            _ => {},
        }
    } else {
        lemma_level(m, data, keys, i, (t - 1) as nat, state_with_target(st, path_addr(m, root, k, (t - 1) as nat)), pos);
        assert(has_flag(st.flag, BIT_FINAL_STATE));
    }
}

/// Reading key `i` gives the sum of its path's outputs and the final output of
/// its last arc, and no partial sum along the path overflows.
pub proof fn lemma_get_path(m: Map<u64, Placed>, data: Seq<u8>, keys: Seq<Seq<u8>>, i: int, v: u64)
    requires
        final_ok(m, data, keys),
        0 <= i < keys.len(),
        keys[i].len() >= 1,
        step_value(spec_get(data, keys[i])) == Some(v),
    ensures
        forall|s: nat| s <= keys[i].len() ==> #[trigger] path_out_sum(m, data.len() as u64, keys[i], s) <= u64::MAX,
        v == path_out_sum(m, data.len() as u64, keys[i], keys[i].len() as nat)
            + path_arc(m, data.len() as u64, keys[i], (keys[i].len() - 1) as nat).final_out,
{
    let st = state_with_target(fresh_state(0, 0), (data.len() as int) as u64);
    lemma_walk_path(m, data, keys, i, 0, st, data.len() as int, 0, v);
}

/// The index of the arc that key `i`'s path takes at level `t`.
pub open spec fn path_index(m: Map<u64, Placed>, root: u64, key: Seq<u8>, t: nat) -> int {
    label_index(m[path_addr(m, root, key, t)].node, key[t as int])
}

/// The number of arcs of the node at level `t` of the path of `key`.
pub open spec fn path_width(m: Map<u64, Placed>, root: u64, key: Seq<u8>, t: nat) -> int {
    m[path_addr(m, root, key, t)].node.states.len() as int
}

/// Adjacent keys share their path down to where they part; there the later key
/// takes the next arc; below it the earlier key takes last arcs and the later one
/// first arcs.
pub proof fn lemma_adjacent_paths(m: Map<u64, Placed>, data: Seq<u8>, keys: Seq<Seq<u8>>, a: int)
    requires
        final_ok(m, data, keys),
        0 <= a,
        a + 1 < keys.len(),
        diverges_before(keys[a], keys[a + 1]),
    ensures
        ({
            let root = data.len() as u64;
            let k1 = keys[a];
            let k2 = keys[a + 1];
            let d = lcp(k1, k2);
            &&& 0 <= d < k1.len()
            &&& d < k2.len()
            &&& forall|y: int| 0 <= y < d ==> k1[y] == k2[y]
            &&& forall|t: nat| t <= d ==> #[trigger] path_addr(m, root, k1, t) == path_addr(m, root, k2, t)
            &&& forall|t: nat| t < d ==> #[trigger] path_arc(m, root, k1, t) == path_arc(m, root, k2, t)
            &&& path_index(m, root, k2, d as nat) == path_index(m, root, k1, d as nat) + 1
            &&& forall|t: nat| d < t < k1.len() ==> #[trigger] path_index(m, root, k1, t) == path_width(m, root, k1, t) - 1
            &&& forall|t: nat| d < t < k2.len() ==> #[trigger] path_index(m, root, k2, t) == 0
        }),
{
    reveal(final_ok);
    let root = data.len() as u64;
    let k1 = keys[a];
    let k2 = keys[a + 1];
    assert(diverges_before(k1, k2));
    lemma_lcp(k1, k2);
    let d = lcp(k1, k2);
    assert forall|t: nat| t <= d implies #[trigger] path_addr(m, root, k1, t) == path_addr(m, root, k2, t) by {
        lemma_path_addr_agree(m, root, k1, k2, t);
    }
    assert forall|t: nat| t < d implies #[trigger] path_arc(m, root, k1, t) == path_arc(m, root, k2, t) by {
        lemma_path_addr_agree(m, root, k1, k2, t);
    }
    assert forall|i: int| 0 <= i < keys.len() && d < keys[i].len() && (forall|y: int| 0 <= y < d ==> keys[i][y] == k1[y])
        implies !(k1[d] < #[trigger] keys[i][d] && keys[i][d] < k2[d]) by {
        if k1[d] < keys[i][d] && keys[i][d] < k2[d] {
            lemma_branch_order(keys, a, i, d);
            lemma_branch_order(keys, i, a + 1, d);
        }
    }
    lemma_index_succ(m, data, keys, root, a, a + 1, d as nat);
    assert forall|t: nat| d < t < k1.len() implies #[trigger] path_index(m, root, k1, t) == path_width(m, root, k1, t) - 1 by {
        assert forall|i: int| 0 <= i < keys.len() && t < keys[i].len() && (forall|y: int| 0 <= y < t ==> keys[i][y] == k1[y])
            implies #[trigger] keys[i][t as int] <= k1[t as int] by {
            if keys[i][t as int] > k1[t as int] {
                lemma_branch_order(keys, a, i, t as int);
                assert(keys[i][d] == k1[d]);
                lemma_branch_order(keys, i, a + 1, d);
            }
        }
        lemma_index_max(m, data, keys, root, a, t);
    }
    assert forall|t: nat| d < t < k2.len() implies #[trigger] path_index(m, root, k2, t) == 0 by {
        assert forall|i: int| 0 <= i < keys.len() && t < keys[i].len() && (forall|y: int| 0 <= y < t ==> keys[i][y] == k2[y])
            implies #[trigger] keys[i][t as int] >= k2[t as int] by {
            if keys[i][t as int] < k2[t as int] {
                lemma_branch_order(keys, i, a + 1, t as int);
                assert(keys[i][d] == k2[d]);
                lemma_branch_order(keys, a, i, d);
            }
        }
        lemma_index_min(m, data, keys, root, a + 1, t);
    }
}

/// Adjacent keys that part at a byte: no key goes on past the earlier one, and
/// no proper prefix of the later one past where they part is a key.
pub proof fn lemma_adjacent_keys(keys: Seq<Seq<u8>>, a: int)
    requires
        keys_increasing(keys),
        0 <= a,
        a + 1 < keys.len(),
        diverges_before(keys[a], keys[a + 1]),
    ensures
        !longer_key(keys, keys[a]),
        forall|s: int| lcp(keys[a], keys[a + 1]) < s < keys[a + 1].len() ==> !is_key(keys, #[trigger] keys[a + 1].subrange(0, s)),
{
    let k1 = keys[a];
    let k2 = keys[a + 1];
    lemma_lcp(k1, k2);
    let d = lcp(k1, k2);
    if longer_key(keys, k1) {
        let i = choose|i: int| 0 <= i < keys.len() && #[trigger] extends(keys[i], k1) && keys[i].len() > k1.len();
        let x = keys[i];
        assert forall|y: int| 0 <= y < k1.len() implies x[y] == k1[y] by {
            assert(x.subrange(0, k1.len() as int)[y] == k1[y]);
        }
        lemma_prefix_at(k1, x);
        assert forall|y: int| 0 <= y < d implies x[y] == k2[y] by {
            assert(x[y] == k1[y]);
        }
        lemma_diverges_at(x, k2, d);
        lemma_between(keys, a, x);
    }
    assert forall|s: int| d < s < k2.len() implies !is_key(keys, #[trigger] k2.subrange(0, s)) by {
        let x = k2.subrange(0, s);
        assert forall|y: int| 0 <= y < d implies k1[y] == x[y] by {
            assert(k1[y] == k2[y]);
        }
        assert(x[d] == k2[d]);
        lemma_diverges_at(k1, x, d);
        assert forall|y: int| 0 <= y < x.len() implies k2[y] == x[y] by {
        }
        lemma_prefix_at(x, k2);
        lemma_between(keys, a, x);
    }
}

/// When a key is a proper prefix of the next key, their paths agree down to the
/// end of the first, some key goes on past it, below it the next key takes first
/// arcs, and no proper prefix of the next key longer than the first is a key.
pub proof fn lemma_extend_paths(m: Map<u64, Placed>, data: Seq<u8>, keys: Seq<Seq<u8>>, a: int)
    requires
        final_ok(m, data, keys),
        0 <= a,
        a + 1 < keys.len(),
        prefix_before(keys[a], keys[a + 1]),
    ensures
        ({
            let root = data.len() as u64;
            let k1 = keys[a];
            let k2 = keys[a + 1];
            let l1 = k1.len() as int;
            &&& l1 < k2.len()
            &&& forall|y: int| 0 <= y < l1 ==> k1[y] == k2[y]
            &&& forall|t: nat| t <= l1 ==> #[trigger] path_addr(m, root, k1, t) == path_addr(m, root, k2, t)
            &&& forall|t: nat| t < l1 ==> #[trigger] path_arc(m, root, k1, t) == path_arc(m, root, k2, t)
            &&& forall|t: nat| l1 <= t < k2.len() ==> #[trigger] path_index(m, root, k2, t) == 0
            &&& forall|s: int| l1 < s < k2.len() ==> !is_key(keys, #[trigger] k2.subrange(0, s))
        }),
{
    reveal(final_ok);
    let root = data.len() as u64;
    let k1 = keys[a];
    let k2 = keys[a + 1];
    let l1 = k1.len() as int;
    lemma_lcp(k1, k2);
    assert forall|t: nat| t <= l1 implies #[trigger] path_addr(m, root, k1, t) == path_addr(m, root, k2, t) by {
        lemma_path_addr_agree(m, root, k1, k2, t);
    }
    assert forall|t: nat| t < l1 implies #[trigger] path_arc(m, root, k1, t) == path_arc(m, root, k2, t) by {
        lemma_path_addr_agree(m, root, k1, k2, t);
    }
    assert forall|t: nat| l1 <= t < k2.len() implies #[trigger] path_index(m, root, k2, t) == 0 by {
        assert forall|i: int| 0 <= i < keys.len() && t < keys[i].len() && (forall|y: int| 0 <= y < t ==> keys[i][y] == k2[y])
            implies #[trigger] keys[i][t as int] >= k2[t as int] by {
            if keys[i][t as int] < k2[t as int] {
                let x = keys[i];
                assert forall|y: int| 0 <= y < l1 implies x[y] == k1[y] by {
                    assert(x[y] == k2[y]);
                }
                lemma_prefix_at(k1, x);
                lemma_diverges_at(x, k2, t as int);
                lemma_between(keys, a, x);
                assert(keys[i] == x);
            }
        }
        lemma_index_min(m, data, keys, root, a + 1, t);
    }
    assert forall|s: int| l1 < s < k2.len() implies !is_key(keys, #[trigger] k2.subrange(0, s)) by {
        let x = k2.subrange(0, s);
        assert forall|y: int| 0 <= y < l1 implies x[y] == k1[y] by {
            assert(k1[y] == k2[y]);
        }
        lemma_prefix_at(k1, x);
        assert forall|y: int| 0 <= y < x.len() implies k2[y] == x[y] by {
        }
        lemma_prefix_at(x, k2);
        lemma_between(keys, a, x);
    }
}

/// The first key has no proper prefix that is a key, and no key goes on past the last.
pub proof fn lemma_end_keys(keys: Seq<Seq<u8>>)
    requires
        keys_increasing(keys),
        keys.len() >= 1,
    ensures
        forall|s: int| 0 < s < keys[0].len() ==> !is_key(keys, #[trigger] keys[0].subrange(0, s)),
        !longer_key(keys, keys.last()),
{
    let n = keys.len() as int;
    let k0 = keys[0];
    assert forall|s: int| 0 < s < k0.len() implies !is_key(keys, #[trigger] k0.subrange(0, s)) by {
        let x = k0.subrange(0, s);
        if is_key(keys, x) {
            let i = choose|i: int| 0 <= i < keys.len() && #[trigger] keys[i] == x;
            assert(i != 0);
            assert(key_before(keys[0], keys[i]));
            assert(extends(k0, x)) by {
                assert(k0.subrange(0, x.len() as int) =~= x);
            }
            crate::trie_step::lemma_before_not_extends(k0, x);
        }
    }
    if longer_key(keys, keys.last()) {
        let i = choose|i: int| 0 <= i < keys.len() && #[trigger] extends(keys[i], keys.last()) && keys[i].len() > keys.last().len();
        assert(i != n - 1);
        assert(key_before(keys[i], keys[n - 1]));
        crate::trie_step::lemma_before_not_extends(keys[i], keys.last());
    }
}

/// The first key's path takes first arcs, and the last key's path last arcs.
pub proof fn lemma_end_paths(m: Map<u64, Placed>, data: Seq<u8>, keys: Seq<Seq<u8>>)
    requires
        final_ok(m, data, keys),
        keys.len() >= 1,
    ensures
        forall|t: nat| t < keys[0].len() ==> #[trigger] path_index(m, data.len() as u64, keys[0], t) == 0,
        forall|t: nat| t < keys.last().len() ==> #[trigger] path_index(m, data.len() as u64, keys.last(), t)
            == path_width(m, data.len() as u64, keys.last(), t) - 1,
{
    reveal(final_ok);
    let root = data.len() as u64;
    let n = keys.len() as int;
    assert forall|t: nat| t < keys[0].len() implies #[trigger] path_index(m, root, keys[0], t) == 0 by {
        assert forall|i: int| 0 <= i < keys.len() && t < keys[i].len() && (forall|y: int| 0 <= y < t ==> keys[i][y] == keys[0][y])
            implies #[trigger] keys[i][t as int] >= keys[0][t as int] by {
            if keys[i][t as int] < keys[0][t as int] {
                lemma_branch_order(keys, i, 0, t as int);
            }
        }
        lemma_index_min(m, data, keys, root, 0, t);
    }
    assert forall|t: nat| t < keys.last().len() implies #[trigger] path_index(m, root, keys.last(), t)
        == path_width(m, root, keys.last(), t) - 1 by {
        assert forall|i: int| 0 <= i < keys.len() && t < keys[i].len() && (forall|y: int| 0 <= y < t ==> keys[i][y] == keys[n - 1][y])
            implies #[trigger] keys[i][t as int] <= keys[n - 1][t as int] by {
            if keys[i][t as int] > keys[n - 1][t as int] {
                lemma_branch_order(keys, n - 1, i, t as int);
            }
        }
        lemma_index_max(m, data, keys, root, n - 1, t);
    }
}

/// The arc on the path of key `i` at level `t` is marked last exactly when it is
/// the last arc of its node.
pub proof fn lemma_level_flags(m: Map<u64, Placed>, data: Seq<u8>, keys: Seq<Seq<u8>>, i: int, t: nat)
    requires
        final_ok(m, data, keys),
        0 <= i < keys.len(),
        t < keys[i].len(),
    ensures
        has_flag(path_arc(m, data.len() as u64, keys[i], t).flag, BIT_LAST_STATE)
            == (path_index(m, data.len() as u64, keys[i], t) == path_width(m, data.len() as u64, keys[i], t) - 1),
        path_width(m, data.len() as u64, keys[i], t) >= 1,
        0 <= path_index(m, data.len() as u64, keys[i], t) < path_width(m, data.len() as u64, keys[i], t),
{
    reveal(final_ok);
    let root = data.len() as u64;
    lemma_key_path(m, data, keys, root, i, t);
    let a = path_addr(m, root, keys[i], t);
    let pl = m[a];
    assert(placed_ok(a, pl, data, keys, m));
    lemma_found_arc_flags(pl.e, pl.node, path_index(m, root, keys[i], t));
}

/// Following an arc to the node at level `t` of key `i`'s path reads its first
/// arc, the path's arc when it takes the first.
pub proof fn lemma_level_first(m: Map<u64, Placed>, data: Seq<u8>, keys: Seq<Seq<u8>>, i: int, t: nat, st: State, pos: int)
    requires
        final_ok(m, data, keys),
        0 <= i < keys.len(),
        t < keys[i].len(),
        path_index(m, data.len() as u64, keys[i], t) == 0,
        st.target == path_addr(m, data.len() as u64, keys[i], t)
            || (st.target == 0 && pos == path_addr(m, data.len() as u64, keys[i], t)),
    ensures
        read_from_follow(data, st, pos) matches Step::Done((d, _p)) && d == path_arc(m, data.len() as u64, keys[i], t),
{
    reveal(final_ok);
    let root = data.len() as u64;
    lemma_key_path(m, data, keys, root, i, t);
    let a = path_addr(m, root, keys[i], t);
    let pl = m[a];
    assert(placed_ok(a, pl, data, keys, m));
    crate::node_laws::lemma_node_shape(pl.e, pl.node);
    crate::node_laws::lemma_read_first_arc(data, pl.e, pl.node, st, pos);
}

/// Where key `b` takes the arc after key `a`'s in the same node, reading on from
/// `a`'s arc gives `b`'s.
pub proof fn lemma_level_next(m: Map<u64, Placed>, data: Seq<u8>, keys: Seq<Seq<u8>>, a: int, b: int, t: nat, pos: int)
    requires
        final_ok(m, data, keys),
        0 <= a < keys.len(),
        0 <= b < keys.len(),
        t < keys[a].len(),
        t < keys[b].len(),
        path_addr(m, data.len() as u64, keys[a], t) == path_addr(m, data.len() as u64, keys[b], t),
        path_index(m, data.len() as u64, keys[b], t) == path_index(m, data.len() as u64, keys[a], t) + 1,
    ensures
        read_next_state_at(data, path_arc(m, data.len() as u64, keys[a], t).next_state, pos) matches Step::Done((d, _p))
            && d == path_arc(m, data.len() as u64, keys[b], t),
{
    reveal(final_ok);
    let root = data.len() as u64;
    lemma_key_path(m, data, keys, root, a, t);
    lemma_key_path(m, data, keys, root, b, t);
    let ad = path_addr(m, root, keys[a], t);
    let pl = m[ad];
    assert(placed_ok(ad, pl, data, keys, m));
    crate::node_laws::lemma_node_shape(pl.e, pl.node);
    crate::node_laws::lemma_read_next_arc(data, pl.e, pl.node, path_index(m, root, keys[a], t), pos);
}


/// The facts about the bytes and the map of a built transducer that a lookup
/// relies on: every node written is described, and the root, at the end of the
/// bytes, stands for the empty prefix.
pub open spec fn trie_ok(m: Map<u64, Placed>, data: Seq<u8>, keys: Seq<Seq<u8>>) -> bool {
    &&& map_ok(m, data, keys)
    &&& m.contains_key(data.len() as u64)
    &&& m[data.len() as u64].path == Seq::<u8>::empty()
    &&& data.len() <= u32::MAX
}

/// One level of the path of key `i`: following an arc to the node there finds
/// the path's arc; it ends a key exactly when its prefix is one, and leads to the
/// node of the next level, which is a real node exactly when a key goes on past it.
pub proof fn lemma_level_any(m: Map<u64, Placed>, data: Seq<u8>, keys: Seq<Seq<u8>>, i: int, t: nat, st: State, pos: int)
    requires
        trie_ok(m, data, keys),
        0 <= i < keys.len(),
        t < keys[i].len(),
        st.target == path_addr(m, data.len() as u64, keys[i], t),
    ensures
        ({
            let s2 = path_arc(m, data.len() as u64, keys[i], t);
            let c = keys[i].subrange(0, t + 1int);
            &&& find_target(data, st, pos, keys[i][t as int]) matches Step::Done((d, _p)) && d == s2
            &&& has_flag(s2.flag, BIT_FINAL_STATE) == is_key(keys, c)
            &&& s2.target == path_addr(m, data.len() as u64, keys[i], t + 1)
            &&& longer_key(keys, c) ==> s2.target > 0
            &&& !longer_key(keys, c) ==> s2.target == 0
            &&& t < keys[i].len() - 1 ==> longer_key(keys, c)
        }),
{
    let root = data.len() as u64;
    let k = keys[i];
    lemma_key_path(m, data, keys, root, i, t);
    let a = path_addr(m, root, k, t);
    let pl = m[a];
    assert(placed_ok(a, pl, data, keys, m));
    crate::node_laws::lemma_node_shape(pl.e, pl.node);
    let j = label_index(pl.node, k[t as int]);
    lemma_find_in_node(data, pl.e, pl.node, j, st, pos);
    lemma_found_arc_flags(pl.e, pl.node, j);
    assert(path_addr(m, root, k, t + 1) == pl.node.states[j].target);
}

/// A lookup of key `i` that succeeds from level `t` on keeps every partial sum
/// of its path's outputs in range.
proof fn lemma_walk_sums(m: Map<u64, Placed>, data: Seq<u8>, keys: Seq<Seq<u8>>, i: int, t: nat, st: State, pos: int, o: u64, v: u64)
    requires
        trie_ok(m, data, keys),
        0 <= i < keys.len(),
        t <= keys[i].len(),
        o == path_out_sum(m, data.len() as u64, keys[i], t),
        t < keys[i].len() ==> st.target == path_addr(m, data.len() as u64, keys[i], t),
        step_value(get_walk(data, st, pos, keys[i], t as int, o)) == Some(v),
    ensures
        forall|s: nat| t <= s <= keys[i].len() ==> #[trigger] path_out_sum(m, data.len() as u64, keys[i], s) <= u64::MAX,
    decreases keys[i].len() - t,
{
    let root = data.len() as u64;
    let k = keys[i];
    if t < k.len() && st.target != 0 {
        lemma_level_any(m, data, keys, i, t, st, pos);
        let s2 = path_arc(m, root, k, t);
        match find_target(data, st, pos, k[t as int]) {
            Step::Done((fs, p2)) => {
                assert(o + s2.out <= u64::MAX);
                lemma_walk_sums(m, data, keys, i, t + 1, s2, p2, (o + s2.out) as u64, v);
            },
            _ => {},
        }
    }
}

/// One level of a lookup that follows key `i` through the node where it agrees
/// with key `w`: the arc found is key `i`'s, and the sum of outputs stays in range.
proof fn lemma_absent_follow(m: Map<u64, Placed>, data: Seq<u8>, keys: Seq<Seq<u8>>, k: Seq<u8>, w: int, i: int, t: nat,
    st: State, pos: int, o: u64)
    requires
        trie_ok(m, data, keys),
        step_value(spec_get(data, keys[i])) is Some,
        0 <= w < keys.len(),
        0 <= i < keys.len(),
        t < k.len(),
        t < keys[w].len(),
        forall|x: int| 0 <= x < t ==> keys[w][x] == k[x],
        extends(keys[i], k.subrange(0, t + 1int)),
        st.target == path_addr(m, data.len() as u64, keys[w], t),
        o == path_out_sum(m, data.len() as u64, keys[w], t),
    ensures
        ({
            let s2 = path_arc(m, data.len() as u64, keys[i], t);
            let c = k.subrange(0, t + 1int);
            &&& forall|x: int| 0 <= x <= t ==> keys[i][x] == k[x]
            &&& find_target(data, st, pos, k[t as int]) matches Step::Done((fs, _p)) && fs == s2
            &&& o + s2.out <= u64::MAX
            &&& path_out_sum(m, data.len() as u64, keys[i], t + 1) == o + s2.out
            &&& has_flag(s2.flag, BIT_FINAL_STATE) == is_key(keys, c)
            &&& s2.target == path_addr(m, data.len() as u64, keys[i], t + 1)
            &&& longer_key(keys, c) ==> s2.target > 0
            &&& !longer_key(keys, c) ==> s2.target == 0
        }),
{
    let root = data.len() as u64;
    let next = k.subrange(0, t + 1int);
    assert forall|x: int| 0 <= x <= t implies keys[i][x] == k[x] by {
        assert(keys[i].subrange(0, t + 1int)[x] == next[x]);
    }
    assert forall|x: int| 0 <= x < t implies keys[i][x] == keys[w][x] by {
        assert(keys[i][x] == k[x]);
        assert(keys[w][x] == k[x]);
    }
    lemma_path_addr_agree(m, root, keys[i], keys[w], t);
    assert forall|s: nat| s < t implies #[trigger] path_arc(m, root, keys[i], s) == path_arc(m, root, keys[w], s) by {
        lemma_path_addr_agree(m, root, keys[i], keys[w], s);
        assert(keys[i][s as int] == keys[w][s as int]);
    }
    lemma_out_sum_agree(m, root, keys[i], keys[w], t);
    lemma_level_any(m, data, keys, i, t, st, pos);
    assert(keys[i].subrange(0, t + 1int) =~= next);
    let v = step_value(spec_get(data, keys[i]))->Some_0;
    let st0 = state_with_target(fresh_state(0, 0), (data.len() as int) as u64);
    lemma_walk_sums(m, data, keys, i, 0, st0, data.len() as int, 0, v);
    assert(path_out_sum(m, root, keys[i], t + 1) <= u64::MAX);
}

/// At a node none of whose labels continues `k` past level `t`, the lookup is
/// answered not found or greater.
proof fn lemma_absent_stop(m: Map<u64, Placed>, data: Seq<u8>, keys: Seq<Seq<u8>>, k: Seq<u8>, w: int, t: nat, st: State,
    pos: int)
    requires
        trie_ok(m, data, keys),
        0 <= w < keys.len(),
        t < k.len(),
        t < keys[w].len(),
        forall|x: int| 0 <= x < t ==> keys[w][x] == k[x],
        !some_key_extends(keys, k.subrange(0, t + 1int)),
        st.target == path_addr(m, data.len() as u64, keys[w], t),
    ensures
        find_target(data, st, pos, k[t as int]) == Step::<(State, int)>::Fail(ReadErr::NotFound)
            || find_target(data, st, pos, k[t as int]) == Step::<(State, int)>::Fail(ReadErr::Greater),
{
    let root = data.len() as u64;
    let next = k.subrange(0, t + 1int);
    lemma_key_path(m, data, keys, root, w, t);
    let a = path_addr(m, root, keys[w], t);
    let pl = m[a];
    assert(placed_ok(a, pl, data, keys, m));
    assert(pl.path =~= k.subrange(0, t as int));
    assert forall|j: int| 0 <= j < pl.node.states.len() implies (#[trigger] pl.node.states[j])._in != k[t as int] by {
        if pl.node.states[j]._in == k[t as int] {
            assert(pl.path.push(pl.node.states[j]._in) =~= next);
            assert(some_key_extends(keys, pl.path.push(pl.node.states[j]._in)));
        }
    }
    crate::node_laws::lemma_node_shape(pl.e, pl.node);
    lemma_find_absent(data, pl.e, pl.node, k[t as int], st, pos);
}

/// A lookup of a key that is not one of `keys`, standing at level `t` on the
/// path of key `w` with which it agrees so far, ends in not found or greater:
/// either a node lacks the next byte, or the key runs out at an arc that ends
/// no key, or goes on past an arc that no key goes on past.
pub proof fn lemma_walk_absent(m: Map<u64, Placed>, data: Seq<u8>, keys: Seq<Seq<u8>>, k: Seq<u8>, w: int, t: nat, st: State,
    pos: int, o: u64)
    requires
        trie_ok(m, data, keys),
        forall|i: int| 0 <= i < keys.len() ==> #[trigger] step_value(spec_get(data, keys[i])) is Some,
        forall|i: int| 0 <= i < keys.len() ==> #[trigger] keys[i] != k,
        0 <= w < keys.len(),
        t <= k.len(),
        t < keys[w].len(),
        forall|x: int| 0 <= x < t ==> keys[w][x] == k[x],
        t == k.len() ==> !has_flag(st.flag, BIT_FINAL_STATE),
        st.target == path_addr(m, data.len() as u64, keys[w], t),
        o == path_out_sum(m, data.len() as u64, keys[w], t),
    ensures
        get_walk(data, st, pos, k, t as int, o) == Step::<(u64, int)>::Fail(ReadErr::NotFound)
            || get_walk(data, st, pos, k, t as int, o) == Step::<(u64, int)>::Fail(ReadErr::Greater),
    decreases k.len() - t,
{
    let root = data.len() as u64;
    if t < k.len() && st.target != 0 {
        let next = k.subrange(0, t + 1int);
        if longer_key(keys, next) {
            let i = choose|i: int| 0 <= i < keys.len() && #[trigger] extends(keys[i], next) && keys[i].len() > next.len();
            lemma_absent_follow(m, data, keys, k, w, i, t, st, pos, o);
            let s2 = path_arc(m, root, keys[i], t);
            match find_target(data, st, pos, k[t as int]) {
                Step::Done((fs, p2)) => {
                    let o2 = (o + s2.out) as u64;
                    if t + 1 == k.len() {
                        assert(next =~= k);
                        if is_key(keys, next) {
                            let x = choose|x: int| 0 <= x < keys.len() && #[trigger] keys[x] == next;
                            assert(keys[x] != k);
                        }
                    } else {
                        lemma_walk_absent(m, data, keys, k, i, t + 1, s2, p2, o2);
                    }
                },
                _ => {},
            }
        } else if exists|i: int| 0 <= i < keys.len() && #[trigger] extends(keys[i], next) {
            let i = choose|i: int| 0 <= i < keys.len() && #[trigger] extends(keys[i], next);
            lemma_absent_follow(m, data, keys, k, w, i, t, st, pos, o);
            let s2 = path_arc(m, root, keys[i], t);
            assert(s2.target == 0);
            match find_target(data, st, pos, k[t as int]) {
                Step::Done((fs, p2)) => {
                    let o2 = (o + s2.out) as u64;
                    if t + 1 == k.len() {
                        assert(next =~= k);
                        if is_key(keys, next) {
                            let x = choose|x: int| 0 <= x < keys.len() && #[trigger] keys[x] == next;
                            assert(keys[x] != k);
                        }
                        assert(!has_flag(s2.flag, BIT_FINAL_STATE));
                    }
                    assert(get_walk(data, s2, p2, k, t + 1int, o2) == Step::<(u64, int)>::Fail(ReadErr::NotFound));
                },
                _ => {},
            }
        } else {
            lemma_absent_stop(m, data, keys, k, w, t, st, pos);
        }
    }
}

} // verus!
