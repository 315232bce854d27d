use vstd::prelude::*;
use crate::build_laws::build_inv;
use crate::build_laws::diverges_before;
use crate::build_laws::lcp;
use crate::build_laws::lemma_lcp;
use crate::build_laws::lemma_lcp_unique;
use crate::build_laws::path_node_ok;
use crate::build_laws::lemma_prefix_arcs;
use crate::build_step::lemma_add_first;
use crate::build_step::lemma_inv_stack;
use crate::build_step::lemma_suffix_shape;
use crate::build_step::start_state;
use crate::builder::finish_spec;
use crate::builder::freeze_loop;
use crate::builder::top_last_target;
use crate::format::encode_node;
use crate::node_laws::is_prefix;
use crate::node_laws::lemma_node_shape;
use crate::node_laws::node_addr;
use crate::state::map_last;
use crate::state::match_len_from;
use crate::state::suffix_stack;
use crate::trie_laws::lemma_map_ok_grow;
use crate::trie_laws::placed_ok;
use crate::build_step::lemma_step_frame;
use crate::build_step::matched;
use crate::build_step::step_freeze;
use crate::build_step::suffix_arc;
use crate::builder::add_spec;
use crate::builder::BuilderV;
use crate::node_laws::sorted_labels;
use crate::state::match_len;
use crate::state::prefix_stack;
use crate::state::rest_out;
use crate::state::state_with_target;
use crate::state::NodeV;
use crate::state::State;
use crate::trie_laws::arc_ok;
use crate::trie_laws::chain_nodes_ok;
use crate::trie_laws::extends;
use crate::trie_laws::longer_key;
use crate::build_laws::key_before;
use crate::build_laws::prefix_before;
use crate::trie_laws::freeze_map;
use crate::trie_laws::has_label;
use crate::trie_laws::is_key;
use crate::trie_laws::labels_exact;
use crate::trie_laws::lemma_arc_transfer;
use crate::trie_laws::lemma_map_transfer;
use crate::trie_laws::lemma_trie_chain;
use crate::trie_laws::map_grows;
use crate::trie_laws::map_ok;
use crate::trie_laws::some_key_extends;
use crate::trie_laws::Placed;

verus! {

/// A prefix of an earlier key that the last key does not start with is not the
/// start of a later key either.
pub proof fn lemma_closed_stays(ki: Seq<u8>, last: Seq<u8>, k: Seq<u8>, path: Seq<u8>)
    requires
        extends(ki, path),
        !extends(last, path),
        diverges_before(ki, last),
        diverges_before(last, k),
    ensures
        !extends(k, path),
{
    lemma_lcp(ki, last);
    lemma_lcp(last, k);
    let d1 = lcp(ki, last);
    if extends(k, path) {
        if d1 < path.len() {
            assert(ki[d1] == path[d1]) by {
                assert(ki.subrange(0, path.len() as int)[d1] == path[d1]);
            }
            assert(k[d1] == path[d1]) by {
                assert(k.subrange(0, path.len() as int)[d1] == path[d1]);
            }
            assert forall|t: int| 0 <= t < d1 implies last[t] == k[t] by {
                assert(ki[t] == last[t]);
                assert(ki.subrange(0, path.len() as int)[t] == path[t]);
                assert(k.subrange(0, path.len() as int)[t] == path[t]);
            }
            lemma_lcp_unique(last, k, d1);
        } else {
            assert(last.subrange(0, path.len() as int) =~= path) by {
                assert forall|t: int| 0 <= t < path.len() implies last.subrange(0, path.len() as int)[t] == path[t] by {
                    assert(ki[t] == last[t]);
                    assert(ki.subrange(0, path.len() as int)[t] == path[t]);
                }
            }
        }
    }
}

/// No earlier key starts with a prefix of the new key longer than the part it
/// shares with the last key.
pub proof fn lemma_old_not_extend(ki: Seq<u8>, last: Seq<u8>, k: Seq<u8>, d: int)
    requires
        ki == last || key_before(ki, last),
        diverges_before(last, k),
        lcp(last, k) < d <= k.len(),
    ensures
        !extends(ki, k.subrange(0, d)),
{
    lemma_lcp(last, k);
    lemma_lcp(ki, last);
    let p = lcp(last, k);
    if extends(ki, k.subrange(0, d)) {
        assert(ki[p] == k[p]) by {
            assert(ki.subrange(0, d)[p] == k.subrange(0, d)[p]);
        }
        if ki != last {
            assert forall|t: int| 0 <= t < p implies ki[t] == last[t] by {
                assert(ki.subrange(0, d)[t] == k.subrange(0, d)[t]);
            }
            if diverges_before(ki, last) {
                lemma_lcp_unique(ki, last, p);
            } else {
                assert(ki[p] == last[p]);
            }
        }
    }
}

/// The structure of what the builder holds for `keys`: the map describes every
/// node written; none of them lies on the path of the last key; and the nodes of
/// that path have exact labels, their side arcs leading to written nodes.
pub open spec fn trie_inv(b: BuilderV, keys: Seq<Seq<u8>>, m: Map<u64, Placed>) -> bool {
    let last = keys.last();
    let ns = b.stack;
    &&& map_ok(m, b.enc.bytes, keys)
    &&& forall|a: u64| #[trigger] m.contains_key(a) ==> !extends(last, m[a].path)
    &&& forall|d: int| 0 <= d < last.len() ==> labels_exact(#[trigger] ns[d], last.subrange(0, d), keys)
    &&& forall|d: int, j: int| 0 <= d < last.len() && 0 <= j < ns[d].states.len() - 1
        ==> arc_ok(#[trigger] ns[d].states[j], last.subrange(0, d), keys, m)
}

/// A key that sorts before another does not start with it.
pub proof fn lemma_before_not_extends(a: Seq<u8>, b: Seq<u8>)
    requires
        key_before(a, b),
    ensures
        !extends(a, b),
{
    lemma_lcp(a, b);
    if extends(a, b) {
        let d = lcp(a, b);
        if d < b.len() {
            assert(a.subrange(0, b.len() as int)[d] == b[d]);
        }
    }
}

/// Every earlier key sorts before the last.
pub proof fn lemma_inv_before(b: BuilderV, keys: Seq<Seq<u8>>, vals: Seq<u64>)
    requires
        build_inv(b, keys, vals),
    ensures
        forall|i: int| 0 <= i < keys.len() - 1 ==> key_before(#[trigger] keys[i], keys.last()),
{
    assert forall|i: int| 0 <= i < keys.len() - 1 implies key_before(#[trigger] keys[i], keys.last()) by {
        assert(crate::build_laws::found_earlier(b.stack, b.enc.bytes, keys.last(), keys[i], vals[i]));
    }
}

/// The last arcs on the path of the last key: one ends a key exactly when its
/// prefix of the last key is a key, and some key goes on past it exactly when it
/// is not the last arc.
pub proof fn lemma_path_flags(b: BuilderV, keys: Seq<Seq<u8>>, vals: Seq<u64>)
    requires
        build_inv(b, keys, vals),
    ensures
        forall|t: int| 0 <= t < keys.last().len() ==> (#[trigger] b.stack[t]).states.last().is_final
            == is_key(keys, keys.last().subrange(0, t + 1)),
        forall|t: int| 0 <= t < keys.last().len() ==> (longer_key(keys, #[trigger] keys.last().subrange(0, t + 1))
            <==> t < keys.last().len() - 1),
{
    let last = keys.last();
    let q = last.len() as int;
    let n = keys.len() as int;
    let ns = b.stack;
    lemma_inv_before(b, keys, vals);
    assert(last.subrange(0, q) =~= last);
    assert forall|t: int| 0 <= t < q implies (#[trigger] ns[t]).states.last().is_final == is_key(keys, last.subrange(0, t + 1)) by {
        if t == q - 1 {
            assert(keys[n - 1] == last.subrange(0, t + 1));
        } else if is_key(keys, last.subrange(0, t + 1)) {
            let m = choose|m: int| 0 <= m < keys.len() && #[trigger] keys[m] == last.subrange(0, t + 1);
            assert(m != n - 1);
            assert(crate::build_laws::found_earlier(ns, b.enc.bytes, last, keys[m], vals[m]));
            crate::build_step::lemma_lcp_prefix(last, t + 1);
            assert(prefix_before(keys[m], last));
        }
    }
    assert forall|t: int| 0 <= t < q implies (longer_key(keys, #[trigger] last.subrange(0, t + 1)) <==> t < q - 1) by {
        let c = last.subrange(0, t + 1);
        if t < q - 1 {
            assert(extends(keys[n - 1], c)) by {
                assert(last.subrange(0, c.len() as int) =~= c);
            }
        } else if longer_key(keys, c) {
            assert(c =~= last);
            let i = choose|i: int| 0 <= i < keys.len() && #[trigger] extends(keys[i], c) && keys[i].len() > c.len();
            assert(i != n - 1);
            lemma_before_not_extends(keys[i], last);
        }
    }
}

/// The map after adding `key`: the nodes that the freeze compiles join it.
pub open spec fn step_map(b: BuilderV, keys: Seq<Seq<u8>>, m: Map<u64, Placed>, key: Seq<u8>, v: u64) -> Map<u64, Placed> {
    freeze_map(matched(b, key, v).drop_last(), b.enc, match_len(b.stack, key), 0, m, keys.last())
}

/// A node whose arcs keep their labels, finality and targets, on a prefix that
/// the new key continues along its last arc, keeps its facts.
proof fn lemma_same_node(n0: NodeV, n1: NodeV, path: Seq<u8>, keys: Seq<Seq<u8>>, k: Seq<u8>, m: Map<u64, Placed>,
    m2: Map<u64, Placed>)
    requires
        labels_exact(n0, path, keys),
        forall|j: int| 0 <= j < n0.states.len() - 1 ==> arc_ok(#[trigger] n0.states[j], path, keys, m),
        n0.states.len() >= 1,
        sorted_labels(n0.states),
        n1.states.len() == n0.states.len(),
        forall|j: int| 0 <= j < n0.states.len() ==> (#[trigger] n1.states[j])._in == n0.states[j]._in
            && n1.states[j].is_final == n0.states[j].is_final && n1.states[j].target == n0.states[j].target,
        extends(k, path),
        k.len() > path.len(),
        k[path.len() as int] == n0.states.last()._in,
        map_grows(m, m2),
    ensures
        labels_exact(n1, path, keys.push(k)),
        forall|j: int| 0 <= j < n1.states.len() - 1 ==> arc_ok(#[trigger] n1.states[j], path, keys.push(k), m2),
{
    let keys2 = keys.push(k);
    let l = n0.states.len();
    assert forall|j: int| 0 <= j < l implies some_key_extends(keys2, path.push(#[trigger] n1.states[j]._in)) by {
        assert(n1.states[j]._in == n0.states[j]._in);
        assert(some_key_extends(keys, path.push(n0.states[j]._in)));
        let i = choose|i: int| 0 <= i < keys.len() && #[trigger] extends(keys[i], path.push(n0.states[j]._in));
        assert(keys2[i] == keys[i]);
    }
    assert forall|i: int| 0 <= i < keys2.len() && #[trigger] extends(keys2[i], path) && keys2[i].len() > path.len()
        implies has_label(n1, keys2[i][path.len() as int]) by {
        if i < keys.len() {
            assert(keys2[i] == keys[i]);
            assert(extends(keys[i], path));
            assert(has_label(n0, keys[i][path.len() as int]));
            let jj = choose|jj: int| 0 <= jj < n0.states.len() && #[trigger] n0.states[jj]._in == keys[i][path.len() as int];
            assert(n1.states[jj]._in == n0.states[jj]._in);
        } else {
            assert(n1.states[l - 1]._in == n0.states[l - 1]._in);
        }
    }
    assert forall|j: int| 0 <= j < l - 1 implies arc_ok(#[trigger] n1.states[j], path, keys2, m2) by {
        assert(arc_ok(n0.states[j], path, keys, m));
        assert(n0.states[j]._in < n0.states[l - 1]._in);
        if extends(k, path.push(n0.states[j]._in)) {
            assert(k.subrange(0, path.len() + 1int)[path.len() as int] == path.push(n0.states[j]._in)[path.len() as int]);
        }
        lemma_arc_transfer(n0.states[j], path, keys, k, m, m2);
    }
}

/// The nodes below the common prefix with a new key are in shape for the freeze.
#[verifier::spinoff_prover]
#[verifier::rlimit(100)]
proof fn lemma_step_chain_nodes(b: BuilderV, keys: Seq<Seq<u8>>, vals: Seq<u64>, m: Map<u64, Placed>, key: Seq<u8>, v: u64)
    requires
        build_inv(b, keys, vals),
        trie_inv(b, keys, m),
        diverges_before(keys.last(), key),
        add_spec(b, key, v).enc.bytes.len() <= u32::MAX,
    ensures
        chain_nodes_ok(matched(b, key, v).drop_last(), match_len(b.stack, key), keys.last(), keys, m),
{
    let last = keys.last();
    let q = last.len() as int;
    let ns = b.stack;
    let p = match_len(ns, key);
    let ns1 = matched(b, key, v);
    let nsd = ns1.drop_last();
    crate::build_step::lemma_add_ok(b, keys, vals, key, v);
    lemma_inv_stack(b, keys, vals);
    crate::state::lemma_match_len_bound(ns, key, 0);
    assert(ns1.len() == ns.len());
    assert(nsd.len() == q);
    lemma_path_flags(b, keys, vals);
    assert forall|t: int| p <= t < nsd.len() implies (#[trigger] nsd[t]).states.len() >= 1
        && nsd[t].states.last()._in == last[t]
        && nsd[t].states.last().is_final == is_key(keys, last.subrange(0, t + 1)) by {
        assert(nsd[t] == ns1[t]);
        lemma_prefix_arcs(ns, key, v, q, t);
        assert(path_node_ok(ns[t], last[t]));
        reveal(path_node_ok);
        let l = ns[t].states.len();
        assert(ns1[t].states[l - 1].is_final == ns[t].states[l - 1].is_final);
        assert(ns1[t].states[l - 1]._in == ns[t].states[l - 1]._in);
    }
    assert forall|t: int| p < t < nsd.len() implies sorted_labels((#[trigger] nsd[t]).states)
        && labels_exact(nsd[t], last.subrange(0, t), keys)
        && forall|j: int| 0 <= j < nsd[t].states.len() - 1 ==> arc_ok(#[trigger] nsd[t].states[j], last.subrange(0, t), keys, m) by {
        assert(nsd[t] == ns1[t]);
        lemma_prefix_arcs(ns, key, v, q, t);
        assert(ns1[t] == ns[t]);
        assert(path_node_ok(ns[t], last[t]));
        reveal(path_node_ok);
        assert(labels_exact(ns[t], last.subrange(0, t), keys));
        assert forall|j: int| 0 <= j < nsd[t].states.len() - 1 implies arc_ok(#[trigger] nsd[t].states[j], last.subrange(0, t), keys, m) by {
            assert(arc_ok(ns[t].states[j], last.subrange(0, t), keys, m));
        }
    }
}

/// No node written, before or by the freeze, lies on the path of the new key.
proof fn lemma_closed_after(m: Map<u64, Placed>, m2: Map<u64, Placed>, data: Seq<u8>, keys: Seq<Seq<u8>>, key: Seq<u8>, p: int)
    requires
        keys.len() >= 1,
        map_ok(m, data, keys),
        forall|a: u64| #[trigger] m.contains_key(a) ==> !extends(keys.last(), m[a].path),
        map_grows(m, m2),
        forall|a: u64| #[trigger] m2.contains_key(a) ==> m.contains_key(a)
            || (p < m2[a].path.len() && extends(keys.last(), m2[a].path)),
        forall|i: int| 0 <= i < keys.len() - 1 ==> key_before(#[trigger] keys[i], keys.last()),
        diverges_before(keys.last(), key),
        p == lcp(keys.last(), key),
    ensures
        forall|a: u64| #[trigger] m2.contains_key(a) ==> !extends(key, m2[a].path),
{
    let n = keys.len() as int;
    let last = keys.last();
    lemma_lcp(last, key);
    assert forall|a: u64| #[trigger] m2.contains_key(a) implies !extends(key, m2[a].path) by {
        if m.contains_key(a) {
            let pl = m[a];
            assert(m2[a] == pl);
            assert(crate::trie_laws::placed_ok(a, pl, data, keys, m));
            assert(!extends(last, pl.path));
            let c = pl.node.states[0]._in;
            assert(some_key_extends(keys, pl.path.push(c)));
            let i = choose|i: int| 0 <= i < keys.len() && #[trigger] extends(keys[i], pl.path.push(c));
            assert(extends(keys[i], pl.path)) by {
                assert(keys[i].subrange(0, pl.path.len() as int) =~= pl.path.push(c).subrange(0, pl.path.len() as int));
                assert(pl.path.push(c).subrange(0, pl.path.len() as int) =~= pl.path);
            }
            if i == n - 1 {
                assert(keys[i] == last);
            } else if diverges_before(keys[i], last) {
                lemma_closed_stays(keys[i], last, key, pl.path);
            } else {
                lemma_lcp(keys[i], last);
                assert(last.subrange(0, pl.path.len() as int) =~= pl.path) by {
                    assert forall|t: int| 0 <= t < pl.path.len() implies last.subrange(0, pl.path.len() as int)[t] == pl.path[t] by {
                        assert(keys[i][t] == last[t]);
                        assert(keys[i].subrange(0, pl.path.len() as int)[t] == pl.path[t]);
                    }
                }
            }
        } else {
            let path = m2[a].path;
            assert(p < path.len() && extends(last, path));
            if extends(key, path) {
                assert(key[p] == path[p]) by {
                    assert(key.subrange(0, path.len() as int)[p] == path[p]);
                }
                assert(last[p] == path[p]) by {
                    assert(last.subrange(0, path.len() as int)[p] == path[p]);
                }
            }
        }
    }
}

/// The map after adding a key describes every node written, for the keys with
/// the new one; none of its nodes lies on the new key's path; and the kept node's
/// old last arc leads where it should.
#[verifier::spinoff_prover]
#[verifier::rlimit(60)]
proof fn lemma_step_map(b: BuilderV, keys: Seq<Seq<u8>>, vals: Seq<u64>, m: Map<u64, Placed>, key: Seq<u8>, v: u64)
    requires
        build_inv(b, keys, vals),
        trie_inv(b, keys, m),
        diverges_before(keys.last(), key),
        add_spec(b, key, v).enc.bytes.len() <= u32::MAX,
    ensures
        ({
            let m2 = step_map(b, keys, m, key, v);
            let p = match_len(b.stack, key);
            &&& map_ok(m2, add_spec(b, key, v).enc.bytes, keys.push(key))
            &&& map_grows(m, m2)
            &&& forall|a: u64| #[trigger] m2.contains_key(a) ==> !extends(key, m2[a].path)
            &&& arc_ok(state_with_target(matched(b, key, v)[p].states.last(), step_freeze(b, key, v).2 as u64),
                keys.last().subrange(0, p), keys, m2)
        }),
{
    let n = keys.len() as int;
    let last = keys.last();
    let q = last.len() as int;
    let ns = b.stack;
    let p = match_len(ns, key);
    let ns1 = matched(b, key, v);
    let nsd = ns1.drop_last();
    let m2 = step_map(b, keys, m, key, v);
    lemma_step_frame(b, keys, vals, key, v);
    lemma_step_chain_nodes(b, keys, vals, m, key, v);
    lemma_inv_stack(b, keys, vals);
    lemma_trie_chain(nsd, b.enc, p, 0, m, last, keys);
    assert(nsd[p] == ns1[p]);
    assert(map_grows(m, m2));
    lemma_inv_before(b, keys, vals);
    lemma_closed_after(m, m2, b.enc.bytes, keys, key, p);
    lemma_map_transfer(m2, add_spec(b, key, v).enc.bytes, keys, key);
}

/// The nodes of the new key's path above the level where it parts keep their facts.
#[verifier::spinoff_prover]
#[verifier::rlimit(60)]
proof fn lemma_stack_upper(b: BuilderV, keys: Seq<Seq<u8>>, vals: Seq<u64>, m: Map<u64, Placed>, key: Seq<u8>, v: u64, d: int)
    requires
        build_inv(b, keys, vals),
        trie_inv(b, keys, m),
        diverges_before(keys.last(), key),
        add_spec(b, key, v).enc.bytes.len() <= u32::MAX,
        0 <= d < match_len(b.stack, key),
        map_grows(m, step_map(b, keys, m, key, v)),
    ensures
        labels_exact(add_spec(b, key, v).stack[d], key.subrange(0, d), keys.push(key)),
        forall|j: int| 0 <= j < add_spec(b, key, v).stack[d].states.len() - 1
            ==> arc_ok(#[trigger] add_spec(b, key, v).stack[d].states[j], key.subrange(0, d), keys.push(key), step_map(b, keys, m, key, v)),
{
    let last = keys.last();
    let q = last.len() as int;
    let ns = b.stack;
    let p = match_len(ns, key);
    let ns1 = matched(b, key, v);
    let nsn = add_spec(b, key, v).stack;
    lemma_step_frame(b, keys, vals, key, v);
    lemma_inv_stack(b, keys, vals);
    lemma_lcp(last, key);
    assert(nsn[d] == ns1[d]);
    lemma_prefix_arcs(ns, key, v, q, d);
    assert(path_node_ok(ns[d], last[d]));
    reveal(path_node_ok);
    assert(last.subrange(0, d) =~= key.subrange(0, d));
    assert(extends(key, key.subrange(0, d))) by {
        assert(key.subrange(0, d).subrange(0, d) =~= key.subrange(0, d));
    }
    assert(labels_exact(ns[d], last.subrange(0, d), keys));
    assert forall|j: int| 0 <= j < ns[d].states.len() - 1 implies arc_ok(#[trigger] ns[d].states[j], last.subrange(0, d), keys, m) by {
    }
    lemma_same_node(ns[d], nsn[d], key.subrange(0, d), keys, key, m, step_map(b, keys, m, key, v));
}

/// A node that gains an arc for the new key, past its old arcs, keeps its facts.
proof fn lemma_grown_trie_node(n0: NodeV, n2: NodeV, path: Seq<u8>, keys: Seq<Seq<u8>>, key: Seq<u8>, m: Map<u64, Placed>,
    m2: Map<u64, Placed>, st: State)
    requires
        labels_exact(n0, path, keys),
        forall|j: int| 0 <= j < n0.states.len() - 1 ==> arc_ok(#[trigger] n0.states[j], path, keys, m),
        sorted_labels(n0.states),
        n0.states.len() >= 1,
        n2.states.len() == n0.states.len() + 1,
        forall|j: int| 0 <= j < n0.states.len() - 1 ==> (#[trigger] n2.states[j])._in == n0.states[j]._in
            && n2.states[j].is_final == n0.states[j].is_final && n2.states[j].target == n0.states[j].target,
        n2.states[n0.states.len() - 1] == st,
        st._in == n0.states.last()._in,
        arc_ok(st, path, keys, m2),
        extends(key, path),
        key.len() > path.len(),
        n2.states.last()._in == key[path.len() as int],
        n0.states.last()._in < key[path.len() as int],
        map_grows(m, m2),
    ensures
        labels_exact(n2, path, keys.push(key)),
        forall|j: int| 0 <= j < n2.states.len() - 1 ==> arc_ok(#[trigger] n2.states[j], path, keys.push(key), m2),
{
    let keys2 = keys.push(key);
    let l = n0.states.len() as int;
    let a0 = n0.states;
    let a2 = n2.states;
    let c = key[path.len() as int];
    assert forall|j: int| 0 <= j < l implies (#[trigger] a2[j])._in == a0[j]._in by {
    }
    assert(extends(key, path.push(c))) by {
        assert(key.subrange(0, path.len() + 1int) =~= path.push(c));
    }
    assert forall|j: int| 0 <= j < a2.len() implies some_key_extends(keys2, path.push(#[trigger] a2[j]._in)) by {
        if j < l {
            assert(some_key_extends(keys, path.push(a0[j]._in)));
            let i = choose|i: int| 0 <= i < keys.len() && #[trigger] extends(keys[i], path.push(a0[j]._in));
            assert(keys2[i] == keys[i]);
        } else {
            assert(keys2[keys.len() as int] == key);
        }
    }
    assert forall|i: int| 0 <= i < keys2.len() && #[trigger] extends(keys2[i], path) && keys2[i].len() > path.len()
        implies has_label(n2, keys2[i][path.len() as int]) by {
        if i < keys.len() {
            assert(keys2[i] == keys[i]);
            assert(extends(keys[i], path));
            assert(has_label(n0, keys[i][path.len() as int]));
            let jj = choose|jj: int| 0 <= jj < a0.len() && #[trigger] a0[jj]._in == keys[i][path.len() as int];
            assert(a2[jj]._in == a0[jj]._in);
        } else {
            assert(a2[l]._in == c);
        }
    }
    assert forall|j: int| 0 <= j < a2.len() - 1 implies arc_ok(#[trigger] a2[j], path, keys2, m2) by {
        let sj = if j < l - 1 { a0[j] } else { st };
        if j < l - 1 {
            assert(a0[j]._in < a0[l - 1]._in);
        }
        if extends(key, path.push(sj._in)) {
            assert(key.subrange(0, path.len() + 1int)[path.len() as int] == path.push(sj._in)[path.len() as int]);
        }
        if j < l - 1 {
            assert(arc_ok(a0[j], path, keys, m));
            lemma_arc_transfer(a0[j], path, keys, key, m, m2);
        } else {
            lemma_arc_transfer(st, path, keys, key, m2, m2);
        }
    }
}

/// The node where the new key parts from the last one: its old arcs keep their
/// facts, and the arc for the new key joins them.
#[verifier::spinoff_prover]
#[verifier::rlimit(60)]
proof fn lemma_stack_mid(b: BuilderV, keys: Seq<Seq<u8>>, vals: Seq<u64>, m: Map<u64, Placed>, key: Seq<u8>, v: u64)
    requires
        build_inv(b, keys, vals),
        trie_inv(b, keys, m),
        diverges_before(keys.last(), key),
        add_spec(b, key, v).enc.bytes.len() <= u32::MAX,
        map_grows(m, step_map(b, keys, m, key, v)),
        arc_ok(state_with_target(matched(b, key, v)[match_len(b.stack, key)].states.last(), step_freeze(b, key, v).2 as u64),
            keys.last().subrange(0, match_len(b.stack, key)), keys, step_map(b, keys, m, key, v)),
    ensures
        labels_exact(add_spec(b, key, v).stack[match_len(b.stack, key)], key.subrange(0, match_len(b.stack, key)), keys.push(key)),
        forall|j: int| 0 <= j < add_spec(b, key, v).stack[match_len(b.stack, key)].states.len() - 1
            ==> arc_ok(#[trigger] add_spec(b, key, v).stack[match_len(b.stack, key)].states[j],
                key.subrange(0, match_len(b.stack, key)), keys.push(key), step_map(b, keys, m, key, v)),
{
    let last = keys.last();
    let q = last.len() as int;
    let ns = b.stack;
    let p = match_len(ns, key);
    let ns1 = matched(b, key, v);
    let nsn = add_spec(b, key, v).stack;
    let m2 = step_map(b, keys, m, key, v);
    let path = key.subrange(0, p);
    lemma_step_frame(b, keys, vals, key, v);
    lemma_inv_stack(b, keys, vals);
    lemma_lcp(last, key);
    lemma_prefix_arcs(ns, key, v, q, p);
    assert(path_node_ok(ns[p], last[p]));
    reveal(path_node_ok);
    assert(last.subrange(0, p) =~= path);
    let l = ns1[p].states.len();
    let rest = key.subrange(p, key.len() as int);
    let out = rest_out(ns, v, p) as u64;
    assert(nsn[p].states.last() == suffix_arc(rest, 0, out));
    assert forall|j: int| 0 <= j < l - 1 implies (#[trigger] nsn[p].states[j])._in == ns[p].states[j]._in
        && nsn[p].states[j].is_final == ns[p].states[j].is_final && nsn[p].states[j].target == ns[p].states[j].target by {
        assert(nsn[p].states[j] == ns1[p].states[j]);
    }
    assert(extends(key, path)) by {
        assert(key.subrange(0, p).subrange(0, p) =~= key.subrange(0, p));
    }
    let st = state_with_target(ns1[p].states.last(), step_freeze(b, key, v).2 as u64);
    assert(labels_exact(ns[p], path, keys));
    assert forall|j: int| 0 <= j < ns[p].states.len() - 1 implies arc_ok(#[trigger] ns[p].states[j], path, keys, m) by {
    }
    lemma_grown_trie_node(ns[p], nsn[p], path, keys, key, m, m2, st);
}

/// A node of one arc, for the new key alone, has exact labels.
proof fn lemma_single_trie_node(n: NodeV, path: Seq<u8>, keys: Seq<Seq<u8>>, key: Seq<u8>)
    requires
        n.states.len() == 1,
        extends(key, path),
        key.len() > path.len(),
        n.states[0]._in == key[path.len() as int],
        forall|i: int| 0 <= i < keys.len() && #[trigger] extends(keys[i], path) ==> keys[i].len() <= path.len(),
    ensures
        labels_exact(n, path, keys.push(key)),
{
    let keys2 = keys.push(key);
    let c = key[path.len() as int];
    assert(extends(key, path.push(c))) by {
        assert(key.subrange(0, path.len() + 1int) =~= path.push(c));
    }
    assert(keys2[keys.len() as int] == key);
    assert forall|j: int| 0 <= j < n.states.len() implies some_key_extends(keys2, path.push(#[trigger] n.states[j]._in)) by {
        assert(j == 0);
    }
    assert forall|i: int| 0 <= i < keys2.len() && #[trigger] extends(keys2[i], path) && keys2[i].len() > path.len()
        implies has_label(n, keys2[i][path.len() as int]) by {
        if i < keys.len() {
            assert(keys2[i] == keys[i]);
        }
    }
}

/// No key added so far starts with a prefix of the new key longer than the part
/// it shares with the last key.
proof fn lemma_none_extend(keys: Seq<Seq<u8>>, key: Seq<u8>, d: int)
    requires
        keys.len() >= 1,
        forall|i: int| 0 <= i < keys.len() - 1 ==> key_before(#[trigger] keys[i], keys.last()),
        diverges_before(keys.last(), key),
        lcp(keys.last(), key) < d <= key.len(),
    ensures
        forall|i: int| 0 <= i < keys.len() ==> !extends(#[trigger] keys[i], key.subrange(0, d)),
{
    let n = keys.len() as int;
    assert forall|i: int| 0 <= i < keys.len() implies !extends(#[trigger] keys[i], key.subrange(0, d)) by {
        if i < n - 1 {
            assert(key_before(keys[i], keys.last()));
        }
        lemma_old_not_extend(keys[i], keys.last(), key, d);
    }
}

/// The nodes below the level where the new key parts hold only its arc.
proof fn lemma_stack_lower(nsn: Seq<NodeV>, keys: Seq<Seq<u8>>, key: Seq<u8>, p: int, out: u64, d: int)
    requires
        keys.len() >= 1,
        forall|i: int| 0 <= i < keys.len() - 1 ==> key_before(#[trigger] keys[i], keys.last()),
        diverges_before(keys.last(), key),
        p == lcp(keys.last(), key),
        p < d < key.len(),
        nsn.len() > key.len(),
        forall|i: int| p < i < key.len() ==> (#[trigger] nsn[i]).states.len() == 1,
        forall|i: int| p <= i < key.len() ==> (#[trigger] nsn[i]).states.last()
            == suffix_arc(key.subrange(p, key.len() as int), i - p, out),
    ensures
        labels_exact(nsn[d], key.subrange(0, d), keys.push(key)),
        nsn[d].states.len() == 1,
{
    let path = key.subrange(0, d);
    let rest = key.subrange(p, key.len() as int);
    lemma_lcp(keys.last(), key);
    assert(nsn[d].states.last() == suffix_arc(rest, d - p, out));
    assert(rest[d - p] == key[d]);
    assert(nsn[d].states[0]._in == key[d]);
    assert(extends(key, path)) by {
        assert(key.subrange(0, d).subrange(0, d) =~= key.subrange(0, d));
    }
    lemma_none_extend(keys, key, d);
    lemma_single_trie_node(nsn[d], path, keys, key);
}

/// Adding a key that sorts after the last one and does not extend it keeps the
/// structure: the nodes the freeze compiles join the map.
#[verifier::spinoff_prover]
#[verifier::rlimit(60)]
pub proof fn lemma_trie_step(b: BuilderV, keys: Seq<Seq<u8>>, vals: Seq<u64>, m: Map<u64, Placed>, key: Seq<u8>, v: u64)
    requires
        build_inv(b, keys, vals),
        trie_inv(b, keys, m),
        diverges_before(keys.last(), key),
        add_spec(b, key, v).enc.bytes.len() <= u32::MAX,
    ensures
        trie_inv(add_spec(b, key, v), keys.push(key), step_map(b, keys, m, key, v)),
        map_grows(m, step_map(b, keys, m, key, v)),
{
    let ns = b.stack;
    let p = match_len(ns, key);
    let nsn = add_spec(b, key, v).stack;
    let m2 = step_map(b, keys, m, key, v);
    let keys2 = keys.push(key);
    lemma_step_frame(b, keys, vals, key, v);
    lemma_step_map(b, keys, vals, m, key, v);
    lemma_stack_mid(b, keys, vals, m, key, v);
    lemma_inv_stack(b, keys, vals);
    assert(keys2.last() == key);
    lemma_inv_before(b, keys, vals);
    assert forall|d: int| 0 <= d < key.len() implies labels_exact(#[trigger] nsn[d], key.subrange(0, d), keys2) by {
        if d < p {
            lemma_stack_upper(b, keys, vals, m, key, v, d);
        } else if d > p {
            lemma_stack_lower(nsn, keys, key, p, rest_out(ns, v, p) as u64, d);
        }
    }
    assert forall|d: int, j: int| 0 <= d < key.len() && 0 <= j < nsn[d].states.len() - 1
        implies arc_ok(#[trigger] nsn[d].states[j], key.subrange(0, d), keys2, m2) by {
        if d < p {
            lemma_stack_upper(b, keys, vals, m, key, v, d);
        } else if d > p {
            lemma_stack_lower(nsn, keys, key, p, rest_out(ns, v, p) as u64, d);
        }
    }
}

/// Adding a key that extends the last key writes no node and keeps the
/// structure: the node below the last key's path gains the new key's arc.
#[verifier::spinoff_prover]
#[verifier::rlimit(60)]
pub proof fn lemma_trie_extend(b: BuilderV, keys: Seq<Seq<u8>>, vals: Seq<u64>, m: Map<u64, Placed>, key: Seq<u8>, v: u64)
    requires
        build_inv(b, keys, vals),
        trie_inv(b, keys, m),
        prefix_before(keys.last(), key),
    ensures
        trie_inv(add_spec(b, key, v), keys.push(key), step_map(b, keys, m, key, v)),
        map_grows(m, step_map(b, keys, m, key, v)),
{
    let last = keys.last();
    let q = last.len() as int;
    let n = keys.len() as int;
    let ns = b.stack;
    let ns1 = matched(b, key, v);
    let nsn = add_spec(b, key, v).stack;
    let keys2 = keys.push(key);
    let data = b.enc.bytes;
    crate::build_step::lemma_add_ok(b, keys, vals, key, v);
    lemma_inv_stack(b, keys, vals);
    lemma_inv_before(b, keys, vals);
    lemma_path_flags(b, keys, vals);
    lemma_lcp(last, key);
    let p = match_len(ns, key);
    assert(p == q);
    crate::state::lemma_match_len_bound(ns, key, 0);
    assert(ns1.len() == q + 1);
    assert(freeze_map(ns1.drop_last(), b.enc, p, 0, m, last) == m);
    assert(step_map(b, keys, m, key, v) == m);
    // the frame of the step
    assert(ns1[q] == crate::state::prefix_node(ns, key, v, q));
    assert(freeze_loop(ns1, b.enc, q, -1i64) == (ns1, b.enc, -1i64));
    let ns2 = top_last_target(ns1, (-1i64) as u64);
    assert(ns2 =~= ns1);
    let rest = key.subrange(q, key.len() as int);
    let out = rest_out(ns, v, q) as u64;
    assert(add_spec(b, key, v) == BuilderV { stack: suffix_stack(ns1, rest, out), enc: b.enc });
    lemma_suffix_shape(ns1, rest, out);
    assert(last =~= key.subrange(0, q));
    assert(last.subrange(0, q) =~= last);
    // no written node lies on the new key's path
    assert forall|a: u64| #[trigger] m.contains_key(a) implies !extends(key, m[a].path) by {
        let pl = m[a];
        assert(placed_ok(a, pl, data, keys, m));
        if extends(key, pl.path) {
            if pl.path.len() <= q {
                assert(last.subrange(0, pl.path.len() as int) =~= pl.path) by {
                    assert forall|t: int| 0 <= t < pl.path.len() implies last.subrange(0, pl.path.len() as int)[t] == pl.path[t] by {
                        assert(key.subrange(0, pl.path.len() as int)[t] == pl.path[t]);
                    }
                }
            } else {
                let c = pl.node.states[0]._in;
                assert(some_key_extends(keys, pl.path.push(c)));
                let i = choose|i: int| 0 <= i < keys.len() && #[trigger] extends(keys[i], pl.path.push(c));
                assert(extends(keys[i], last)) by {
                    assert forall|t: int| 0 <= t < q implies keys[i].subrange(0, q)[t] == last[t] by {
                        assert(keys[i].subrange(0, pl.path.len() + 1int)[t] == pl.path.push(c)[t]);
                        assert(key.subrange(0, pl.path.len() as int)[t] == pl.path[t]);
                    }
                    assert(keys[i].subrange(0, q) =~= last);
                }
                if i == n - 1 {
                    assert(keys[i].len() == q);
                } else {
                    lemma_before_not_extends(keys[i], last);
                }
            }
        }
    }
    lemma_map_transfer(m, data, keys, key);
    // no earlier key goes on past the last key
    assert forall|i: int| 0 <= i < keys.len() && #[trigger] extends(keys[i], last) implies keys[i].len() <= last.len() by {
        if i < n - 1 {
            lemma_before_not_extends(keys[i], last);
        }
    }
    assert forall|d: int| 0 <= d < key.len() implies labels_exact(#[trigger] nsn[d], key.subrange(0, d), keys2)
        && (forall|j: int| 0 <= j < nsn[d].states.len() - 1 ==> arc_ok(#[trigger] nsn[d].states[j], key.subrange(0, d), keys2, m)) by {
        let path = key.subrange(0, d);
        assert(extends(key, path)) by {
            assert(key.subrange(0, d).subrange(0, d) =~= key.subrange(0, d));
        }
        if d < q {
            assert(nsn[d] == ns1[d]);
            lemma_prefix_arcs(ns, key, v, q, d);
            assert(path_node_ok(ns[d], last[d]));
            reveal(path_node_ok);
            assert(last.subrange(0, d) =~= path);
            assert(labels_exact(ns[d], path, keys));
            assert forall|j: int| 0 <= j < ns[d].states.len() - 1 implies arc_ok(#[trigger] ns[d].states[j], path, keys, m) by {
            }
            lemma_same_node(ns[d], nsn[d], path, keys, key, m, m);
        } else {
            assert(nsn[d].states.last() == suffix_arc(rest, d - q, out));
            assert(rest[d - q] == key[d]);
            assert(nsn[d].states[0]._in == key[d]);
            assert forall|i: int| 0 <= i < keys.len() && #[trigger] extends(keys[i], path) implies keys[i].len() <= path.len() by {
                assert(extends(keys[i], last)) by {
                    assert forall|t: int| 0 <= t < q implies keys[i].subrange(0, q)[t] == last[t] by {
                        assert(keys[i].subrange(0, d)[t] == path[t]);
                    }
                    assert(keys[i].subrange(0, q) =~= last);
                }
            }
            lemma_single_trie_node(nsn[d], path, keys, key);
        }
    }
    assert(keys2.last() == key);
}

/// After the first key, the stack holds its path, one arc per node, and no node
/// is written yet.
pub proof fn lemma_trie_first(key: Seq<u8>, v: u64)
    requires
        key.len() >= 1,
    ensures
        trie_inv(add_spec(start_state(), key, v), seq![key], Map::<u64, Placed>::empty()),
{
    let b = start_state();
    lemma_add_first(key, v);
    let ns = b.stack;
    let q = key.len() as int;
    assert(match_len_from(ns, key, 0) == 0);
    let ns1 = prefix_stack(ns, key, v);
    assert(ns1[0].states =~= Seq::<State>::empty());
    assert(ns1 =~= ns);
    assert(freeze_loop(ns1, b.enc, 0, -1i64) == (ns1, b.enc, -1i64));
    let ns2 = top_last_target(ns1, (-1i64) as u64);
    assert(ns2 =~= ns1);
    assert(key.subrange(0, q) =~= key);
    let nsn = add_spec(b, key, v).stack;
    assert(nsn == suffix_stack(ns, key, v));
    lemma_suffix_shape(ns, key, v);
    let keys = Seq::<Seq<u8>>::empty();
    assert(keys.push(key) =~= seq![key]);
    assert forall|d: int| 0 <= d < q implies labels_exact(#[trigger] nsn[d], key.subrange(0, d), seq![key])
        && nsn[d].states.len() == 1 by {
        assert(nsn[d].states.last() == suffix_arc(key, d, v));
        assert(extends(key, key.subrange(0, d))) by {
            assert(key.subrange(0, d).subrange(0, d) =~= key.subrange(0, d));
        }
        lemma_single_trie_node(nsn[d], key.subrange(0, d), keys, key);
    }
    assert(seq![key].last() == key);
}

/// The map once the builder is finished: the nodes the final freeze compiles and
/// the root, with the empty prefix.
pub open spec fn finish_map(b: BuilderV, keys: Seq<Seq<u8>>, m: Map<u64, Placed>) -> Map<u64, Placed> {
    let ns = b.stack;
    let fl = freeze_loop(ns.drop_last(), b.enc, 0, 0);
    let m1 = freeze_map(ns.drop_last(), b.enc, 0, 0, m, keys.last());
    let root = map_last(ns[0], state_with_target(ns[0].states.last(), fl.2 as u64));
    m1.insert(node_addr(fl.1, root), Placed { e: fl.1, node: root, path: Seq::empty() })
}

/// Finishing places the root at the end of the bytes, and the map describes every
/// node written.
#[verifier::spinoff_prover]
#[verifier::rlimit(80)]
pub proof fn lemma_trie_finish(b: BuilderV, keys: Seq<Seq<u8>>, vals: Seq<u64>, m: Map<u64, Placed>)
    requires
        build_inv(b, keys, vals),
        trie_inv(b, keys, m),
        finish_spec(b).enc.bytes.len() <= u32::MAX,
    ensures
        map_ok(finish_map(b, keys, m), finish_spec(b).enc.bytes, keys),
        finish_map(b, keys, m).contains_key(finish_spec(b).enc.bytes.len() as u64),
        finish_map(b, keys, m)[finish_spec(b).enc.bytes.len() as u64].path == Seq::<u8>::empty(),
{
    let last = keys.last();
    let q = last.len() as int;
    let ns = b.stack;
    let nsd = ns.drop_last();
    lemma_inv_stack(b, keys, vals);
    let fl = freeze_loop(nsd, b.enc, 0, 0);
    assert(freeze_loop(ns, b.enc, 0, -1i64) == fl);
    crate::build_laws::lemma_freeze_extends(nsd, b.enc, 0, 0);
    let root = map_last(ns[0], state_with_target(ns[0].states.last(), fl.2 as u64));
    assert(nsd[0] == ns[0]);
    assert(finish_spec(b).enc == encode_node(fl.1, root));
    let data = encode_node(fl.1, root).bytes;
    crate::build_laws::lemma_node_extends(fl.1, root);
    lemma_path_flags(b, keys, vals);
    assert forall|t: int| 0 <= t < nsd.len() implies (#[trigger] nsd[t]).states.len() >= 1
        && nsd[t].states.last()._in == last[t]
        && nsd[t].states.last().is_final == is_key(keys, last.subrange(0, t + 1)) by {
        assert(nsd[t] == ns[t]);
        assert(path_node_ok(ns[t], last[t]));
        reveal(path_node_ok);
    }
    assert forall|t: int| 0 < t < nsd.len() implies sorted_labels((#[trigger] nsd[t]).states)
        && labels_exact(nsd[t], last.subrange(0, t), keys)
        && forall|j: int| 0 <= j < nsd[t].states.len() - 1 ==> arc_ok(#[trigger] nsd[t].states[j], last.subrange(0, t), keys, m) by {
        assert(nsd[t] == ns[t]);
        assert(path_node_ok(ns[t], last[t]));
        reveal(path_node_ok);
        assert(labels_exact(ns[t], last.subrange(0, t), keys));
        assert forall|j: int| 0 <= j < nsd[t].states.len() - 1 implies arc_ok(#[trigger] nsd[t].states[j], last.subrange(0, t), keys, m) by {
            assert(arc_ok(ns[t].states[j], last.subrange(0, t), keys, m));
        }
    }
    assert(chain_nodes_ok(nsd, 0, last, keys, m));
    lemma_trie_chain(nsd, b.enc, 0, 0, m, last, keys);
    let m1 = freeze_map(nsd, b.enc, 0, 0, m, last);
    lemma_node_shape(fl.1, root);
    let path = Seq::<u8>::empty();
    assert(last.subrange(0, 0) =~= path);
    let pl = Placed { e: fl.1, node: root, path: path };
    let a = node_addr(fl.1, root);
    let mf = m1.insert(a, pl);
    assert(path_node_ok(ns[0], last[0]));
    reveal(path_node_ok);
    let n0 = ns[0].states;
    let n1 = root.states;
    assert forall|j: int| 0 <= j < n1.len() implies (#[trigger] n1[j])._in == n0[j]._in
        && (j < n1.len() - 1 ==> n1[j] == n0[j]) by {
    }
    assert(sorted_labels(n1)) by {
        assert forall|x: int, y: int| 0 <= x < y < n1.len() implies #[trigger] n1[x]._in < #[trigger] n1[y]._in by {
            assert(n0[x]._in < n0[y]._in);
        }
    }
    assert(labels_exact(ns[0], path, keys));
    assert(labels_exact(root, path, keys)) by {
        assert forall|j: int| 0 <= j < n1.len() implies some_key_extends(keys, path.push(#[trigger] n1[j]._in)) by {
            assert(some_key_extends(keys, path.push(n0[j]._in)));
        }
        assert forall|i: int| 0 <= i < keys.len() && #[trigger] extends(keys[i], path) && keys[i].len() > path.len()
            implies has_label(root, keys[i][path.len() as int]) by {
            assert(has_label(ns[0], keys[i][0]));
            let jj = choose|jj: int| 0 <= jj < n0.len() && #[trigger] n0[jj]._in == keys[i][0];
            assert(n1[jj]._in == n0[jj]._in);
        }
    }
    assert(is_prefix(data, data)) by {
        assert(data.subrange(0, data.len() as int) =~= data);
    }
    assert forall|j: int| 0 <= j < n1.len() implies arc_ok(#[trigger] n1[j], path, keys, mf) by {
        if j < n1.len() - 1 {
            assert(n1[j] == n0[j]);
            assert(arc_ok(n0[j], path, keys, m));
            if longer_key(keys, path.push(n0[j]._in)) {
                assert(m.contains_key(n0[j].target));
                assert(m1.contains_key(n0[j].target));
                assert(n0[j].target <= fl.1.bytes.len());
            }
        } else {
            let st = state_with_target(ns[0].states.last(), fl.2 as u64);
            assert(n1[j] == st);
            assert(arc_ok(st, path, keys, m1));
            if longer_key(keys, path.push(st._in)) {
                assert(m1.contains_key(st.target));
                assert(st.target <= fl.1.bytes.len());
            }
        }
    }
    assert(placed_ok(a, pl, data, keys, mf));
    lemma_map_ok_grow(m1, fl.1.bytes, data, keys, a, pl);
    assert(a == data.len());
}

} // verus!
