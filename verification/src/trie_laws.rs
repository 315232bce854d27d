use vstd::prelude::*;
use crate::builder::freeze_loop;
use crate::format::encode_node;
use crate::format::EncV;
use crate::node_laws::aligned;
use crate::node_laws::is_prefix;
use crate::node_laws::lemma_node_shape;
use crate::node_laws::lemma_prefix_trans;
use crate::node_laws::node_addr;
use crate::node_laws::sorted_labels;
use crate::state::map_last;
use crate::state::state_with_target;
use crate::state::NodeV;
use crate::state::State;

verus! {

/// A node written to the bytes: the encoder it was written from, the node, and
/// the key prefix that leads to it.
pub struct Placed {
    pub e: EncV,
    pub node: NodeV,
    pub path: Seq<u8>,
}

/// `k` starts with `p`.
pub open spec fn extends(k: Seq<u8>, p: Seq<u8>) -> bool {
    p.len() <= k.len() && k.subrange(0, p.len() as int) == p
}

/// Some key starts with `p`.
pub open spec fn some_key_extends(keys: Seq<Seq<u8>>, p: Seq<u8>) -> bool {
    exists|i: int| 0 <= i < keys.len() && #[trigger] extends(keys[i], p)
}

/// `p` is one of the keys.
pub open spec fn is_key(keys: Seq<Seq<u8>>, p: Seq<u8>) -> bool {
    exists|i: int| 0 <= i < keys.len() && #[trigger] keys[i] == p
}

/// Some arc of the node carries label `c`.
pub open spec fn has_label(node: NodeV, c: u8) -> bool {
    exists|j: int| 0 <= j < node.states.len() && #[trigger] node.states[j]._in == c
}

/// The node's labels are exactly the bytes that follow `path` in the keys.
pub open spec fn labels_exact(node: NodeV, path: Seq<u8>, keys: Seq<Seq<u8>>) -> bool {
    &&& forall|j: int| 0 <= j < node.states.len() ==> some_key_extends(keys, path.push(#[trigger] node.states[j]._in))
    &&& forall|i: int| 0 <= i < keys.len() && #[trigger] extends(keys[i], path) && keys[i].len() > path.len()
        ==> has_label(node, keys[i][path.len() as int])
}

/// Some key starts with `p` and is longer.
pub open spec fn longer_key(keys: Seq<Seq<u8>>, p: Seq<u8>) -> bool {
    exists|i: int| 0 <= i < keys.len() && #[trigger] extends(keys[i], p) && keys[i].len() > p.len()
}

/// Arc `s` below `path`: it ends a key exactly when `path` and its label form
/// one; it leads to the written node of that longer prefix when some key goes
/// on past it, and nowhere otherwise.
pub open spec fn arc_ok(s: State, path: Seq<u8>, keys: Seq<Seq<u8>>, m: Map<u64, Placed>) -> bool {
    &&& s.is_final == is_key(keys, path.push(s._in))
    &&& !longer_key(keys, path.push(s._in)) ==> s.target == 0
    &&& longer_key(keys, path.push(s._in)) ==> s.target > 0 && m.contains_key(s.target) && m[s.target].path == path.push(s._in)
}

/// Entry `a` describes a node written at `a` in `data`.
pub open spec fn placed_ok(a: u64, pl: Placed, data: Seq<u8>, keys: Seq<Seq<u8>>, m: Map<u64, Placed>) -> bool {
    &&& aligned(pl.e)
    &&& pl.node.states.len() >= 1
    &&& sorted_labels(pl.node.states)
    &&& node_addr(pl.e, pl.node) == a
    &&& is_prefix(encode_node(pl.e, pl.node).bytes, data)
    &&& labels_exact(pl.node, pl.path, keys)
    &&& forall|j: int| 0 <= j < pl.node.states.len() ==> arc_ok(#[trigger] pl.node.states[j], pl.path, keys, m)
}

/// Every entry of the map describes a node written in `data`.
pub open spec fn map_ok(m: Map<u64, Placed>, data: Seq<u8>, keys: Seq<Seq<u8>>) -> bool {
    forall|a: u64| #[trigger] m.contains_key(a) ==> placed_ok(a, m[a], data, keys, m) && a <= data.len()
}

/// `m2` keeps every entry of `m`.
pub open spec fn map_grows(m: Map<u64, Placed>, m2: Map<u64, Placed>) -> bool {
    forall|a: u64| #[trigger] m.contains_key(a) ==> m2.contains_key(a) && m2[a] == m[a]
}

/// The entries the freeze adds: each node compiled, at its address, with the
/// prefix of `last` that leads to it.
pub open spec fn freeze_map(ns: Seq<NodeV>, e: EncV, p: int, addr: i64, m: Map<u64, Placed>, last: Seq<u8>) -> Map<u64, Placed>
    decreases ns.len(),
{
    if ns.len() > p + 1 && ns.len() > 0 {
        if addr == -1 {
            freeze_map(ns.drop_last(), e, p, 0, m, last)
        } else {
            let node = map_last(ns.last(), state_with_target(ns.last().states.last(), addr as u64));
            let e2 = encode_node(e, node);
            freeze_map(ns.drop_last(), e2, p, e2.last_frozen as i64,
                m.insert(e2.last_frozen, Placed { e: e, node: node, path: last.subrange(0, ns.len() - 1) }), last)
        }
    } else {
        m
    }
}

/// The nodes of the stack at levels `p` and below, which the freeze compiles
/// (all but `p`), are in shape for the map.
pub open spec fn chain_nodes_ok(ns: Seq<NodeV>, p: int, last: Seq<u8>, keys: Seq<Seq<u8>>, m: Map<u64, Placed>) -> bool {
    &&& 0 <= p < ns.len() <= last.len()
    &&& forall|t: int| p <= t < ns.len() ==> (longer_key(keys, #[trigger] last.subrange(0, t + 1)) <==> t < last.len() - 1)
    &&& forall|t: int| p <= t < ns.len() ==> (#[trigger] ns[t]).states.len() >= 1
        && ns[t].states.last()._in == last[t]
        && ns[t].states.last().is_final == is_key(keys, last.subrange(0, t + 1))
    &&& forall|t: int| p < t < ns.len() ==> sorted_labels((#[trigger] ns[t]).states)
        && labels_exact(ns[t], last.subrange(0, t), keys)
        && forall|j: int| 0 <= j < ns[t].states.len() - 1 ==> arc_ok(#[trigger] ns[t].states[j], last.subrange(0, t), keys, m)
}

pub proof fn lemma_map_ok_grow(m: Map<u64, Placed>, data: Seq<u8>, data2: Seq<u8>, keys: Seq<Seq<u8>>, a2: u64, pl: Placed)
    requires
        map_ok(m, data, keys),
        is_prefix(data, data2),
        data.len() < a2,
        a2 <= data2.len(),
        placed_ok(a2, pl, data2, keys, m.insert(a2, pl)),
    ensures
        map_ok(m.insert(a2, pl), data2, keys),
        map_grows(m, m.insert(a2, pl)),
{
    let m1 = m.insert(a2, pl);
    assert forall|a: u64| #[trigger] m1.contains_key(a) implies placed_ok(a, m1[a], data2, keys, m1) && a <= data2.len() by {
        if a != a2 {
            assert(m.contains_key(a));
            let q = m[a];
            assert(placed_ok(a, q, data, keys, m));
            lemma_prefix_trans(encode_node(q.e, q.node).bytes, data, data2);
            assert forall|j: int| 0 <= j < q.node.states.len() implies arc_ok(#[trigger] q.node.states[j], q.path, keys, m1) by {
                assert(arc_ok(q.node.states[j], q.path, keys, m));
                let s = q.node.states[j];
                if longer_key(keys, q.path.push(s._in)) {
                    assert(m.contains_key(s.target));
                    assert(s.target <= data.len());
                }
            }
        }
    }
}

/// Compiling the nodes below level `p` adds each to the map, and the kept node's
/// last arc then leads to the node compiled last (or nowhere, when it ends a key).
pub proof fn lemma_trie_chain(ns: Seq<NodeV>, e: EncV, p: int, addr: i64, m: Map<u64, Placed>, last: Seq<u8>,
    keys: Seq<Seq<u8>>)
    requires
        chain_nodes_ok(ns, p, last, keys, m),
        map_ok(m, e.bytes, keys),
        aligned(e),
        addr >= 0,
        freeze_loop(ns, e, p, addr).1.bytes.len() <= u32::MAX,
        ns.len() == last.len() ==> addr == 0,
        ns.len() < last.len() ==> addr > 0 && m.contains_key(addr as u64)
            && m[addr as u64].path == last.subrange(0, ns.len() as int),
    ensures
        map_ok(freeze_map(ns, e, p, addr, m, last), freeze_loop(ns, e, p, addr).1.bytes, keys),
        map_grows(m, freeze_map(ns, e, p, addr, m, last)),
        arc_ok(state_with_target(ns[p].states.last(), freeze_loop(ns, e, p, addr).2 as u64), last.subrange(0, p), keys,
            freeze_map(ns, e, p, addr, m, last)),
        forall|a: u64| #[trigger] freeze_map(ns, e, p, addr, m, last).contains_key(a) ==> m.contains_key(a)
            || (p < freeze_map(ns, e, p, addr, m, last)[a].path.len() && extends(last, freeze_map(ns, e, p, addr, m, last)[a].path)),
        aligned(freeze_loop(ns, e, p, addr).1),
    decreases ns.len(),
{
    let t = ns.len() - 1;
    if t > p {
        let lt = ns[t].states.last();
        let node = map_last(ns[t], state_with_target(lt, addr as u64));
        let e2 = encode_node(e, node);
        let a2 = e2.last_frozen;
        let path = last.subrange(0, t);
        let pl = Placed { e: e, node: node, path: path };
        let m1 = m.insert(a2, pl);
        let ns1 = ns.drop_last();
        assert(freeze_loop(ns, e, p, addr) == freeze_loop(ns1, e2, p, a2 as i64));
        assert(freeze_map(ns, e, p, addr, m, last) == freeze_map(ns1, e2, p, a2 as i64, m1, last));
        crate::build_laws::lemma_freeze_extends(ns1, e2, p, a2 as i64);
        assert(e2.bytes.len() <= u32::MAX);
        lemma_node_shape(e, node);
        assert(is_prefix(e2.bytes, e2.bytes)) by {
            assert(e2.bytes.subrange(0, e2.bytes.len() as int) =~= e2.bytes);
        }
        // the compiled node is in shape
        let n0 = ns[t].states;
        let n1 = node.states;
        assert(n1.len() == n0.len());
        assert forall|j: int| 0 <= j < n1.len() implies (#[trigger] n1[j])._in == n0[j]._in
            && (j < n1.len() - 1 ==> n1[j] == n0[j]) by {
        }
        assert(sorted_labels(n1)) by {
            assert forall|x: int, y: int| 0 <= x < y < n1.len() implies #[trigger] n1[x]._in < #[trigger] n1[y]._in by {
                assert(n0[x]._in < n0[y]._in);
            }
        }
        assert(labels_exact(node, path, keys)) by {
            assert forall|j: int| 0 <= j < n1.len() implies some_key_extends(keys, path.push(#[trigger] n1[j]._in)) by {
                assert(n1[j]._in == n0[j]._in);
                assert(some_key_extends(keys, path.push(n0[j]._in)));
            }
            assert forall|i: int| 0 <= i < keys.len() && #[trigger] extends(keys[i], path) && keys[i].len() > path.len()
                implies has_label(node, keys[i][path.len() as int]) by {
                assert(has_label(ns[t], keys[i][path.len() as int]));
                let jj = choose|jj: int| 0 <= jj < n0.len() && #[trigger] n0[jj]._in == keys[i][path.len() as int];
                assert(n1[jj]._in == n0[jj]._in);
            }
        }
        assert(last.subrange(0, t + 1) == path.push(last[t]));
        assert forall|j: int| 0 <= j < n1.len() implies arc_ok(#[trigger] n1[j], path, keys, m1) by {
            if j < n1.len() - 1 {
                assert(n1[j] == n0[j]);
                assert(arc_ok(n0[j], path, keys, m));
                if longer_key(keys, path.push(n0[j]._in)) {
                    assert(m.contains_key(n0[j].target));
                    assert(n0[j].target <= e.bytes.len());
                }
            } else {
                assert(n1[j] == state_with_target(lt, addr as u64));
                assert(longer_key(keys, last.subrange(0, t + 1)) <==> t < last.len() - 1);
                if t < last.len() - 1 {
                    assert(m.contains_key(addr as u64));
                    assert(addr <= e.bytes.len());
                }
            }
        }
        assert(placed_ok(a2, pl, e2.bytes, keys, m1));
        lemma_map_ok_grow(m, e.bytes, e2.bytes, keys, a2, pl);
        // the next level
        assert(chain_nodes_ok(ns1, p, last, keys, m1)) by {
            assert forall|t2: int| p < t2 < ns1.len() implies sorted_labels((#[trigger] ns1[t2]).states)
                && labels_exact(ns1[t2], last.subrange(0, t2), keys)
                && forall|j: int| 0 <= j < ns1[t2].states.len() - 1 ==> arc_ok(#[trigger] ns1[t2].states[j], last.subrange(0, t2), keys, m1) by {
                assert(ns1[t2] == ns[t2]);
                assert forall|j: int| 0 <= j < ns1[t2].states.len() - 1 implies arc_ok(#[trigger] ns1[t2].states[j], last.subrange(0, t2), keys, m1) by {
                    let s = ns[t2].states[j];
                    assert(arc_ok(s, last.subrange(0, t2), keys, m));
                    if longer_key(keys, last.subrange(0, t2).push(s._in)) {
                        assert(m.contains_key(s.target));
                        assert(s.target <= e.bytes.len());
                    }
                }
            }
            assert forall|t2: int| p <= t2 < ns1.len() implies (#[trigger] ns1[t2]).states.len() >= 1
                && ns1[t2].states.last()._in == last[t2]
                && ns1[t2].states.last().is_final == is_key(keys, last.subrange(0, t2 + 1)) by {
                assert(ns1[t2] == ns[t2]);
            }
        }
        assert(m1.contains_key(a2));
        assert(last.subrange(0, ns1.len() as int) == path);
        lemma_trie_chain(ns1, e2, p, a2 as i64, m1, last, keys);
        assert(ns1[p] == ns[p]);
        let m2 = freeze_map(ns1, e2, p, a2 as i64, m1, last);
        assert forall|a: u64| #[trigger] m2.contains_key(a) implies m.contains_key(a)
            || (p < m2[a].path.len() && extends(last, m2[a].path)) by {
            if !m.contains_key(a) && m1.contains_key(a) {
                assert(a == a2);
                assert(m2[a] == m1[a]);
                assert(last.subrange(0, t).len() == t);
            }
        }
    } else {
        assert(freeze_loop(ns, e, p, addr) == (ns, e, addr));
        assert(freeze_map(ns, e, p, addr, m, last) == m);
        assert(last.subrange(0, p + 1) == last.subrange(0, p).push(last[p]));
    }
}

/// A key that does not start with `p` changes nothing about the labels that
/// follow `p`.
pub proof fn lemma_labels_transfer(node: NodeV, path: Seq<u8>, keys: Seq<Seq<u8>>, k: Seq<u8>)
    requires
        labels_exact(node, path, keys),
        !extends(k, path),
    ensures
        labels_exact(node, path, keys.push(k)),
{
    let keys2 = keys.push(k);
    assert forall|j: int| 0 <= j < node.states.len() implies some_key_extends(keys2, path.push(#[trigger] node.states[j]._in)) by {
        let i = choose|i: int| 0 <= i < keys.len() && #[trigger] extends(keys[i], path.push(node.states[j]._in));
        assert(keys2[i] == keys[i]);
    }
    assert forall|i: int| 0 <= i < keys2.len() && #[trigger] extends(keys2[i], path) && keys2[i].len() > path.len()
        implies has_label(node, keys2[i][path.len() as int]) by {
        if i < keys.len() {
            assert(keys2[i] == keys[i]);
            assert(extends(keys[i], path));
        }
    }
}

/// An arc whose prefix and label do not spell the new key keeps its facts, in a
/// map that keeps every entry.
pub proof fn lemma_arc_transfer(s: State, path: Seq<u8>, keys: Seq<Seq<u8>>, k: Seq<u8>, m: Map<u64, Placed>, m2: Map<u64, Placed>)
    requires
        arc_ok(s, path, keys, m),
        map_grows(m, m2),
        !extends(k, path.push(s._in)),
    ensures
        arc_ok(s, path, keys.push(k), m2),
{
    let keys2 = keys.push(k);
    let c = path.push(s._in);
    if k == c {
        assert(k.subrange(0, c.len() as int) =~= c);
    }
    if longer_key(keys2, c) {
        let i = choose|i: int| 0 <= i < keys2.len() && #[trigger] extends(keys2[i], c) && keys2[i].len() > c.len();
        assert(keys2[i] == keys[i]);
    }
    if longer_key(keys, c) {
        let i = choose|i: int| 0 <= i < keys.len() && #[trigger] extends(keys[i], c) && keys[i].len() > c.len();
        assert(keys2[i] == keys[i]);
    }
    if is_key(keys, c) {
        let i = choose|i: int| 0 <= i < keys.len() && #[trigger] keys[i] == c;
        assert(keys2[i] == keys[i]);
    }
    if is_key(keys2, c) {
        let i = choose|i: int| 0 <= i < keys2.len() && #[trigger] keys2[i] == c;
        if i < keys.len() {
            assert(keys2[i] == keys[i]);
        }
    }
    if longer_key(keys, c) {
        assert(m.contains_key(s.target));
    }
}

/// A new key that starts with no prefix of the written nodes keeps the map's facts.
pub proof fn lemma_map_transfer(m: Map<u64, Placed>, data: Seq<u8>, keys: Seq<Seq<u8>>, k: Seq<u8>)
    requires
        map_ok(m, data, keys),
        forall|a: u64| #[trigger] m.contains_key(a) ==> !extends(k, m[a].path),
    ensures
        map_ok(m, data, keys.push(k)),
{
    assert forall|a: u64| #[trigger] m.contains_key(a) implies placed_ok(a, m[a], data, keys.push(k), m) && a <= data.len() by {
        let q = m[a];
        assert(placed_ok(a, q, data, keys, m));
        lemma_labels_transfer(q.node, q.path, keys, k);
        assert forall|j: int| 0 <= j < q.node.states.len() implies arc_ok(#[trigger] q.node.states[j], q.path, keys.push(k), m) by {
            assert(arc_ok(q.node.states[j], q.path, keys, m));
            let c = q.path.push(q.node.states[j]._in);
            if extends(k, c) {
                assert(k.subrange(0, q.path.len() as int) =~= c.subrange(0, q.path.len() as int));
                assert(c.subrange(0, q.path.len() as int) =~= q.path);
            }
            lemma_arc_transfer(q.node.states[j], q.path, keys, k, m, m);
        }
    }
}

} // verus!
