use vstd::prelude::*;

verus! {

/// The arc ends a key.
pub const BIT_FINAL_STATE: u8 = 1;

/// The arc is the last arc of its node.
pub const BIT_LAST_STATE: u8 = 2;

/// The arc's target is the node written just before it.
pub const BIT_TAGET_NEXT: u8 = 4;

/// The arc has no target node.
pub const BIT_STOP_NODE: u8 = 8;

/// The arc carries an output.
pub const BIT_STATE_HAS_OUPPUT: u8 = 16;

/// The arc carries a final output.
pub const BIT_STATE_HAS_FINAL_OUTPUT: u8 = 32;

/// The node's arcs are stored as a fixed-size array, searched by bisection.
pub const ARCS_AS_FIXED_ARRAY: u8 = 64;

/// One arc (transition) of the transducer, as it is built and as it is read back.
#[derive(Clone, Copy, Debug)]
pub struct State {
    pub flag: u8,
    pub _in: u8,
    pub out: u64,
    pub final_out: u64,
    pub target: u64,
    pub next_state: u64,
    pub is_final: bool,
}

/// The arc with input `i` and output `o` and every other field zero.
pub open spec fn fresh_state(i: u8, o: u64) -> State {
    State { flag: 0, _in: i, out: o, final_out: 0, target: 0, next_state: 0, is_final: false }
}

pub open spec fn state_with_out(s: State, o: u64) -> State {
    State { flag: s.flag, _in: s._in, out: o, final_out: s.final_out, target: s.target, next_state: s.next_state, is_final: s.is_final }
}

pub open spec fn state_with_final_out(s: State, fo: u64) -> State {
    State { flag: s.flag, _in: s._in, out: s.out, final_out: fo, target: s.target, next_state: s.next_state, is_final: s.is_final }
}

pub open spec fn state_with_target(s: State, t: u64) -> State {
    State { flag: s.flag, _in: s._in, out: s.out, final_out: s.final_out, target: t, next_state: s.next_state, is_final: s.is_final }
}

pub open spec fn state_with_final(s: State) -> State {
    State { flag: s.flag, _in: s._in, out: s.out, final_out: s.final_out, target: s.target, next_state: s.next_state, is_final: true }
}

pub open spec fn has_flag(flag: u8, f: u8) -> bool {
    flag & f != 0
}

impl State {
    pub fn new(_in: u8, out: u64) -> (r: State)
        ensures
            r == fresh_state(_in, out),
    {
        State { flag: 0, _in: _in, out: out, final_out: 0, target: 0, next_state: 0, is_final: false }
    }

    pub fn is_final(&self) -> (r: bool)
        ensures
            r == has_flag(self.flag, BIT_FINAL_STATE),
    {
        self.flag(BIT_FINAL_STATE)
    }

    pub fn is_last(&self) -> (r: bool)
        ensures
            r == has_flag(self.flag, BIT_LAST_STATE),
    {
        self.flag(BIT_LAST_STATE)
    }

    pub fn is_stop(&self) -> (r: bool)
        ensures
            r == has_flag(self.flag, BIT_STOP_NODE),
    {
        self.flag(BIT_STOP_NODE)
    }

    pub fn flag(&self, f: u8) -> (r: bool)
        ensures
            r == has_flag(self.flag, f),
    {
        (self.flag & f) != 0
    }

    pub fn reset(&mut self)
        ensures
            *final(self) == fresh_state(0, 0),
    {
        self._in = 0;
        self.out = 0;
        self.final_out = 0;
        self.target = 0;
        self.flag = 0;
        self.is_final = false;
        self.next_state = 0;
    }
}

/// The abstract value of a node that is still being built: its arcs in
/// input order, whether the path leading to it is a key, and its final output.
pub struct NodeV {
    pub states: Seq<State>,
    pub is_final: bool,
    pub final_output: u64,
}

pub open spec fn empty_node(f: bool) -> NodeV {
    NodeV { states: Seq::empty(), is_final: f, final_output: 0 }
}

pub open spec fn node_with_states(n: NodeV, s: Seq<State>) -> NodeV {
    NodeV { states: s, is_final: n.is_final, final_output: n.final_output }
}

/// The input label of the node's last arc, 0 when it has none.
pub open spec fn last_in_of(n: NodeV) -> u8 {
    if n.states.len() == 0 { 0 } else { n.states.last()._in }
}

/// The output of the node's last arc, 0 when it has none.
pub open spec fn last_out_of(n: NodeV) -> u64 {
    if n.states.len() == 0 { 0 } else { n.states.last().out }
}

/// The node with `f` applied to its last arc (unchanged when it has none).
pub open spec fn map_last(n: NodeV, s: State) -> NodeV {
    if n.states.len() == 0 { n } else { node_with_states(n, n.states.update(n.states.len() - 1, s)) }
}

/// The node with `c` added to the output of every arc.
pub open spec fn add_to_outs(n: NodeV, c: int) -> NodeV {
    node_with_states(n, n.states.map_values(|s: State| state_with_out(s, (s.out + c) as u64)))
}

/// A node whose only arc carries input `b` and no output.
pub open spec fn single_arc_node(b: u8) -> NodeV {
    NodeV { states: seq![fresh_state(b, 0)], is_final: false, final_output: 0 }
}

/// A node that is still being built.
pub struct UnCompiledNode {
    pub states: Vec<State>,
    pub is_final: bool,
    pub final_output: u64,
}

impl View for UnCompiledNode {
    type V = NodeV;

    open spec fn view(&self) -> NodeV {
        NodeV { states: self.states@, is_final: self.is_final, final_output: self.final_output }
    }
}

impl UnCompiledNode {
    pub fn new(_final: bool) -> (r: UnCompiledNode)
        ensures
            r@ == empty_node(_final),
    {
        UnCompiledNode { states: Vec::new(), is_final: _final, final_output: 0 }
    }

    /// Adds `prefix_len` to the output of every arc; returns the final output
    /// that the node's finality now calls for (0 when it is not final).
    pub fn add_output_prefix(&mut self, prefix_len: u64) -> (r: u64)
        requires
            forall|j: int| 0 <= j < old(self).states.len() ==> old(self).states[j].out + prefix_len <= u64::MAX,
            old(self).is_final ==> prefix_len + old(self).final_output <= u64::MAX,
        ensures
            final(self)@ == add_to_outs(old(self)@, prefix_len as int),
            r == (if old(self).is_final { (prefix_len + old(self).final_output) as u64 } else { 0 }),
    {
        let mut final_out: u64 = 0;
        if self.is_final {
            final_out = Self::output_cat(prefix_len, self.final_output);
        }
        if self.states.len() == 0 {
            proof {
                assert(self@.states =~= add_to_outs(old(self)@, prefix_len as int).states);
            }
            return final_out;
        }
        let n = self.states.len();
        let ghost old_states = self.states@;
        let mut i: usize = 0;
        while i < n - 1
            invariant
                n == self.states.len(),
                n == old_states.len(),
                n > 0,
                0 <= i <= n - 1,
                self.is_final == old(self).is_final,
                self.final_output == old(self).final_output,
                old_states == old(self).states@,
                forall|j: int| 0 <= j < n ==> old_states[j].out + prefix_len <= u64::MAX,
                forall|j: int| 0 <= j < i ==> self.states@[j] == state_with_out(old_states[j], (old_states[j].out + prefix_len) as u64),
                forall|j: int| i <= j < n ==> self.states@[j] == old_states[j],
            decreases n - 1 - i,
        {
            let s = self.states[i];
            assert(old_states[i as int].out + prefix_len <= u64::MAX);
            let o = Self::output_cat(prefix_len, s.out);
            self.states.set(i, State { out: o, ..s });
            i += 1;
        }
        assert(self.states@[n - 1] == old_states[n - 1]);
        assert(old_states[n - 1].out + prefix_len <= u64::MAX);
        let state = self.last_mut_state();
        state.out = Self::output_cat(prefix_len, state.out);
        proof {
            assert(self@.states =~= add_to_outs(old(self)@, prefix_len as int).states);
        }
        return final_out;
    }

    /// Points the last arc at the compiled node `addr`.
    pub fn last_compiled(&mut self, addr: u64)
        ensures
            final(self)@ == map_last(old(self)@, state_with_target(old(self)@.states.last(), addr)),
    {
        let n = self.states.len();
        if n > 0 {
            let s = self.states[n - 1];
            self.states.set(n - 1, State { target: addr, ..s });
        }
    }

    pub fn push_state(&mut self, state: State)
        ensures
            final(self)@ == node_with_states(old(self)@, old(self)@.states.push(state)),
    {
        self.states.push(state);
    }

    pub fn last_state(&self) -> (r: &State)
        requires
            self.states.len() > 0,
        ensures
            *r == self@.states.last(),
    {
        let n = self.states.len();
        &self.states[n - 1]
    }

    pub fn last_mut_state(&mut self) -> (r: &mut State)
        requires
            old(self).states.len() > 0,
        ensures
            *r == old(self)@.states.last(),
            final(self)@ == map_last(old(self)@, *final(r)),
    {
        let n = self.states.len();
        &mut self.states[n - 1]
    }

    pub fn last_in(&self) -> (r: u8)
        ensures
            r == last_in_of(self@),
    {
        let n = self.states.len();
        if n > 0 {
            return self.states[n - 1]._in;
        }
        0
    }

    pub fn last_out(&self) -> (r: u64)
        ensures
            r == last_out_of(self@),
    {
        let n = self.states.len();
        if n > 0 {
            return self.states[n - 1].out;
        }
        0
    }

    pub fn set_last_out(&mut self, out: u64)
        ensures
            final(self)@ == map_last(old(self)@, state_with_out(old(self)@.states.last(), out)),
    {
        let n = self.states.len();
        if n > 0 {
            let s = self.states[n - 1];
            self.states.set(n - 1, State { out: out, ..s });
        }
    }

    pub fn set_final_out(&mut self, final_output: u64)
        ensures
            final(self)@ == map_last(old(self)@, state_with_final_out(old(self)@.states.last(), final_output)),
    {
        let n = self.states.len();
        if n > 0 {
            let s = self.states[n - 1];
            self.states.set(n - 1, State { final_out: final_output, ..s });
        }
    }

    /// Sets input and output of the last arc, or adds an arc when there is none.
    pub fn set_in_out(&mut self, _in: u8, out: u64)
        ensures
            old(self).states.len() == 0 ==> final(self)@ == node_with_states(old(self)@, seq![fresh_state(_in, out)]),
            old(self).states.len() > 0 ==> final(self)@ == map_last(old(self)@,
                State { _in: _in, out: out, ..old(self)@.states.last() }),
    {
        if self.states.len() == 0 {
            self.push_state(State::new(_in, out));
            assert(self@.states =~= seq![fresh_state(_in, out)]);
            return;
        }
        let n = self.states.len();
        let s = self.states[n - 1];
        self.states.set(n - 1, State { _in: _in, out: out, ..s });
    }

    pub fn output_cat(l: u64, r: u64) -> (s: u64)
        requires
            l + r <= u64::MAX,
        ensures
            s == l + r,
    {
        l + r
    }
}


pub open spec fn min_int(a: int, b: int) -> int {
    if a <= b { a } else { b }
}

/// The number of leading stack nodes whose last arc carries the next byte of `key`,
/// counting from node `i`; a node without arcs matches nothing.
pub open spec fn match_len_from(ns: Seq<NodeV>, key: Seq<u8>, i: int) -> int
    decreases key.len() - i,
{
    if 0 <= i < key.len() && i < ns.len() && ns[i].states.len() > 0 && last_in_of(ns[i]) == key[i] {
        match_len_from(ns, key, i + 1)
    } else {
        i
    }
}

/// The length of the common prefix of `key` and the path of last arcs.
pub open spec fn match_len(ns: Seq<NodeV>, key: Seq<u8>) -> int {
    match_len_from(ns, key, 0)
}

/// Walking the common prefix with value `v`: after `i` nodes, the output that
/// has to be pushed down into node `i`, and the part of `v` not yet placed.
pub open spec fn prefix_walk(ns: Seq<NodeV>, v: u64, i: int) -> (int, int)
    decreases i,
{
    if i <= 0 {
        (0, v as int)
    } else {
        let (c, o) = prefix_walk(ns, v, i - 1);
        let lst = if ns[i - 1].states.len() == 0 { 0 } else { last_out_of(ns[i - 1]) + c };
        let common = min_int(lst, o);
        (lst - common, o - common)
    }
}

pub open spec fn carry(ns: Seq<NodeV>, v: u64, i: int) -> int {
    prefix_walk(ns, v, i).0
}

pub open spec fn rest_out(ns: Seq<NodeV>, v: u64, i: int) -> int {
    prefix_walk(ns, v, i).1
}

/// The output that the last arc of matched node `k` keeps: the part shared by the
/// old and the new value.
pub open spec fn shared_out(ns: Seq<NodeV>, v: u64, k: int) -> int {
    let lst = if ns[k].states.len() == 0 { 0 } else { last_out_of(ns[k]) + carry(ns, v, k) };
    min_int(lst, rest_out(ns, v, k))
}

/// Node `k` of the stack after the common prefix of `key` has been matched with value `v`.
pub open spec fn prefix_node(ns: Seq<NodeV>, key: Seq<u8>, v: u64, k: int) -> NodeV {
    let p = match_len(ns, key);
    let n = ns[k];
    if k > p {
        n
    } else if k == p {
        add_to_outs(n, carry(ns, v, k))
    } else {
        let pushed = add_to_outs(n, carry(ns, v, k));
        let c1 = carry(ns, v, k + 1);
        let l1 = state_with_out(pushed.states.last(), shared_out(ns, v, k) as u64);
        let l2 = if c1 > 0 && ns[k + 1].is_final {
            state_with_final_out(l1, (l1.final_out + c1) as u64)
        } else {
            l1
        };
        map_last(pushed, l2)
    }
}

pub open spec fn prefix_stack(ns: Seq<NodeV>, key: Seq<u8>, v: u64) -> Seq<NodeV> {
    Seq::new(ns.len(), |k: int| prefix_node(ns, key, v, k))
}

/// Matching the common prefix neither indexes past the stack nor overflows an output.
pub open spec fn prefix_safe(ns: Seq<NodeV>, key: Seq<u8>, v: u64) -> bool {
    let p = match_len(ns, key);
    &&& (p == ns.len() && p > 0 ==> carry(ns, v, p) == 0)
    &&& forall|k: int| 1 <= k <= p && k < ns.len() && carry(ns, v, k) > 0 ==> #[trigger] push_safe(ns[k], carry(ns, v, k))
        && final_push_safe(ns, k, carry(ns, v, k))
}

/// When the path to node `k` is a key, its final output (on the last arc of node
/// `k - 1`) can take `c` more.
pub open spec fn final_push_safe(ns: Seq<NodeV>, k: int, c: int) -> bool {
    ns[k].is_final ==> ns[k - 1].states.last().final_out + c <= u64::MAX
}

/// Adding `c` to every output of `n` (and to its final output) does not overflow.
pub open spec fn push_safe(n: NodeV, c: int) -> bool {
    &&& forall|j: int| 0 <= j < n.states.len() ==> #[trigger] n.states[j].out + c <= u64::MAX
    &&& (n.is_final ==> c + n.final_output <= u64::MAX)
}

/// The stack after the rest of a key has been appended below the common prefix:
/// the first byte goes to the deepest kept node with output `out`, each further
/// byte gets a node of its own, the last arc ends the key, and an empty final
/// node closes the path.
pub open spec fn suffix_stack(ns: Seq<NodeV>, key: Seq<u8>, out: u64) -> Seq<NodeV> {
    if key.len() == 0 {
        ns
    } else {
        let last = ns.len() - 1;
        let ns1 = ns.update(last, node_with_states(ns[last], ns[last].states.push(fresh_state(key[0], out))));
        let ns2 = ns1 + Seq::new((key.len() - 1) as nat, |j: int| single_arc_node(key[j + 1]));
        let top = ns2.last();
        let ns3 = ns2.update(ns2.len() - 1, map_last(top, state_with_final(top.states.last())));
        ns3.push(empty_node(true))
    }
}

/// The stack of nodes on the path of the last key added, root first.
pub struct UnCompiledNodes {
    pub stack: Vec<UnCompiledNode>,
}

impl View for UnCompiledNodes {
    type V = Seq<NodeV>;

    open spec fn view(&self) -> Seq<NodeV> {
        self.stack@.map_values(|n: UnCompiledNode| n@)
    }
}

impl UnCompiledNodes {
    pub fn new() -> (r: UnCompiledNodes)
        ensures
            r@ == Seq::<NodeV>::empty(),
    {
        let stack: Vec<UnCompiledNode> = Vec::with_capacity(64);
        let r = UnCompiledNodes { stack: stack };
        assert(r@ =~= Seq::<NodeV>::empty());
        r
    }

    pub fn reset(&mut self)
        ensures
            final(self)@ == Seq::<NodeV>::empty(),
    {
        self.stack.clear();
        assert(self@ =~= Seq::<NodeV>::empty());
    }

    pub fn push_empty(&mut self, _final: bool)
        ensures
            final(self)@ == old(self)@.push(empty_node(_final)),
    {
        self.stack.push(UnCompiledNode::new(_final));
        assert(self@ =~= old(self)@.push(empty_node(_final)));
    }

    pub fn pop_empty(&mut self)
        ensures
            final(self)@ == (if old(self)@.len() == 0 { old(self)@ } else { old(self)@.drop_last() }),
    {
        let _ = self.stack.pop();
        assert(self@ =~= (if old(self)@.len() == 0 { old(self)@ } else { old(self)@.drop_last() }));
    }

    pub fn pop_root(&mut self) -> (r: Option<UnCompiledNode>)
        ensures
            old(self)@.len() == 0 ==> r.is_none() && final(self)@ == old(self)@,
            old(self)@.len() > 0 ==> r.is_some() && r.unwrap()@ == old(self)@.last()
                && final(self)@ == old(self)@.drop_last(),
    {
        let r = self.stack.pop();
        assert(old(self)@.len() > 0 ==> self@ =~= old(self)@.drop_last());
        r
    }

    pub fn pop_freeze(&mut self) -> (r: Option<UnCompiledNode>)
        ensures
            old(self)@.len() == 0 ==> r.is_none() && final(self)@ == old(self)@,
            old(self)@.len() > 0 ==> r.is_some() && r.unwrap()@ == old(self)@.last()
                && final(self)@ == old(self)@.drop_last(),
    {
        self.pop_root()
    }

    /// Points the last arc of the top node at the compiled node `addr`.
    pub fn top_last_freeze(&mut self, addr: u64)
        ensures
            old(self)@.len() == 0 ==> final(self)@ == old(self)@,
            old(self)@.len() > 0 ==> final(self)@ == old(self)@.update(old(self)@.len() - 1,
                map_last(old(self)@.last(), state_with_target(old(self)@.last().states.last(), addr))),
    {
        let n = self.stack.len();
        if n > 0 {
            self.stack[n - 1].last_compiled(addr);
            proof {
                assert(self@ =~= old(self)@.update(old(self)@.len() - 1,
                    map_last(old(self)@.last(), state_with_target(old(self)@.last().states.last(), addr))));
            }
        }
    }

    pub fn output_prefix(l: u64, r: u64) -> (m: u64)
        ensures
            m == min_int(l as int, r as int),
    {
        if l <= r { l } else { r }
    }

    pub fn output_sub(l: u64, r: u64) -> (d: u64)
        requires
            r <= l,
        ensures
            d == l - r,
    {
        l - r
    }
}


proof fn lemma_map_last_twice(n: NodeV, a: State, b: State)
    ensures
        n.states.len() > 0 ==> map_last(n, a).states.last() == a,
        map_last(map_last(n, a), b) == map_last(n, b),
{
    if n.states.len() > 0 {
        assert(map_last(map_last(n, a), b).states =~= map_last(n, b).states);
    }
}

proof fn lemma_add_zero(n: NodeV)
    ensures
        add_to_outs(n, 0) == n,
{
    assert(add_to_outs(n, 0).states =~= n.states);
}

proof fn lemma_last_out_added(n: NodeV, c: int)
    requires
        c >= 0,
        forall|j: int| 0 <= j < n.states.len() ==> #[trigger] n.states[j].out + c <= u64::MAX,
    ensures
        last_out_of(add_to_outs(n, c)) == (if n.states.len() == 0 { 0 } else { last_out_of(n) + c }),
        last_in_of(add_to_outs(n, c)) == last_in_of(n),
        add_to_outs(n, c).states.len() == n.states.len(),
{
    if n.states.len() > 0 {
        assert(n.states[n.states.len() - 1].out + c <= u64::MAX);
    }
}

pub proof fn lemma_match_len_bound(ns: Seq<NodeV>, key: Seq<u8>, i: int)
    requires
        0 <= i,
    ensures
        i <= match_len_from(ns, key, i),
        match_len_from(ns, key, i) <= i || match_len_from(ns, key, i) <= ns.len(),
        match_len_from(ns, key, i) <= i || match_len_from(ns, key, i) <= key.len(),
    decreases key.len() - i,
{
    if 0 <= i < key.len() && i < ns.len() && last_in_of(ns[i]) == key[i] {
        lemma_match_len_bound(ns, key, i + 1);
    }
}

impl UnCompiledNodes {
    /// Matches `key` against the path of last arcs, moving the part of the old
    /// outputs that the new value `out` does not share down the path; returns the
    /// length of the common prefix and the part of `out` still to be placed.
    pub fn find_common_prefix(&mut self, key: &[u8], out: u64) -> (r: (usize, u64))
        requires
            prefix_safe(old(self)@, key@, out),
        ensures
            r.0 == match_len(old(self)@, key@),
            r.1 == rest_out(old(self)@, out, r.0 as int),
            final(self)@ == prefix_stack(old(self)@, key@, out),
    {
        let ghost ns = self@;
        let ghost v = out;
        let ghost p = match_len(ns, key@);
        proof {
            lemma_match_len_bound(ns, key@, 0);
            if ns.len() > 0 {
                lemma_add_zero(ns[0]);
            }
        }
        let mut out = out;
        let mut i: usize = 0;
        while i < key.len() && i < self.stack.len() && self.stack[i].states.len() > 0 && self.stack[i].last_in() == key[i]
            invariant
                ns == old(self)@,
                p == match_len(ns, key@),
                p <= ns.len(),
                self@.len() == ns.len(),
                self.stack@.len() == ns.len(),
                0 <= i <= p,
                match_len_from(ns, key@, i as int) == p,
                out == rest_out(ns, v, i as int),
                carry(ns, v, i as int) >= 0,
                forall|k: int| 0 <= k < i ==> self@[k] == prefix_node(ns, key@, v, k),
                i < ns.len() ==> self@[i as int] == add_to_outs(ns[i as int], carry(ns, v, i as int)),
                forall|k: int| i < k < ns.len() ==> self@[k] == ns[k],
                prefix_safe(ns, key@, v),
            decreases key.len() - i,
        {
            let ghost c = carry(ns, v, i as int);
            proof {
                lemma_match_len_bound(ns, key@, i as int);
                if i > 0 && c > 0 {
                    assert(push_safe(ns[i as int], carry(ns, v, i as int)));
                }
                lemma_last_out_added(ns[i as int], c);
                assert(self.stack@[i as int]@ == self@[i as int]);
            }
            let ghost pushed = self@[i as int];
            let ghost start_nodes = self@;
            let lo = self.stack[i].last_out();
            let common_pre = Self::output_prefix(lo, out);
            let add_prefix = Self::output_sub(lo, common_pre);
            out = Self::output_sub(out, common_pre);
            self.stack[i].set_last_out(common_pre);
            let ghost l1 = state_with_out(pushed.states.last(), common_pre);
            assert(self@[i as int] == map_last(pushed, l1));
            i += 1;
            proof {
                lemma_match_len_bound(ns, key@, i as int);
                assert(match_len_from(ns, key@, (i - 1) as int) == match_len_from(ns, key@, i as int));
                assert(add_prefix == carry(ns, v, i as int));
                assert(out == rest_out(ns, v, i as int));
                assert(common_pre == shared_out(ns, v, (i - 1) as int));
            }
            if add_prefix > 0 {
                proof {
                    assert(i < ns.len());
                    assert(self.stack@[i as int]@ == ns[i as int]);
                    lemma_match_len_bound(ns, key@, i as int);
                    assert(push_safe(ns[i as int], carry(ns, v, i as int)));
                }
                let node_final = self.stack[i].is_final;
                let _ = self.stack[i].add_output_prefix(add_prefix);
                if node_final {
                    proof {
                        assert(final_push_safe(ns, i as int, carry(ns, v, i as int)));
                        assert(self.stack@[(i - 1) as int]@ == map_last(pushed, l1));
                    }
                    let old_final_out = self.stack[i - 1].last_state().final_out;
                    self.stack[i - 1].set_final_out(old_final_out + add_prefix);
                    proof {
                        lemma_map_last_twice(pushed, l1, state_with_final_out(l1, (l1.final_out + add_prefix) as u64));
                        assert(self@[(i - 1) as int] == map_last(pushed, state_with_final_out(l1, (l1.final_out + add_prefix) as u64)));
                    }
                }
            } else {
                proof {
                    if i < ns.len() {
                        lemma_add_zero(ns[i as int]);
                    }
                }
            }
            proof {
                assert(self@[(i - 1) as int] =~= prefix_node(ns, key@, v, (i - 1) as int));
                assert forall|k: int| 0 <= k < i implies self@[k] == prefix_node(ns, key@, v, k) by {
                    if k < i - 1 {
                        assert(self@[k] == start_nodes[k]);
                    }
                }
            }
        }
        proof {
            assert(i as int == p);
            if i < ns.len() {
                assert(self@[i as int] == prefix_node(ns, key@, v, i as int));
            }
            assert(self@ =~= prefix_stack(ns, key@, v));
        }
        (i, out)
    }

    /// Appends the rest of a key below the top of the stack (see `suffix_stack`).
    pub fn add_suffix(&mut self, key: &[u8], out: u64)
        requires
            key.len() > 0 ==> old(self)@.len() > 0,
        ensures
            final(self)@ == suffix_stack(old(self)@, key@, out),
    {
        if key.len() == 0 {
            return;
        }
        let ghost ns = self@;
        let last = self.stack.len() - 1;
        self.stack[last].push_state(State::new(key[0], out));
        let ghost ns1 = ns.update(last as int, node_with_states(ns[last as int], ns[last as int].states.push(fresh_state(key@[0], out))));
        assert(self@ =~= ns1);
        let mut j: usize = 1;
        while j < key.len()
            invariant
                1 <= j <= key.len(),
                ns1.len() == ns.len(),
                self@ == ns1 + Seq::new((j - 1) as nat, |t: int| single_arc_node(key@[t + 1])),
                self.stack@.len() == self@.len(),
            decreases key.len() - j,
        {
            let mut next = UnCompiledNode::new(false);
            next.push_state(State::new(key[j], 0));
            let ghost before = self@;
            self.stack.push(next);
            j += 1;
            proof {
                assert(next@ =~= single_arc_node(key@[(j - 1) as int]));
                assert(self@ =~= before.push(next@));
                assert(self@ =~= ns1 + Seq::new((j - 1) as nat, |t: int| single_arc_node(key@[t + 1])));
            }
        }
        let ghost ns2 = self@;
        let top = self.stack.len() - 1;
        assert(self.stack@[top as int]@ == ns2[top as int]);
        assert(ns2[top as int].states.len() > 0);
        let n = self.stack[top].states.len();
        let s = self.stack[top].states[n - 1];
        self.stack[top].states.set(n - 1, State { is_final: true, ..s });
        proof {
            assert(self@ =~= ns2.update(ns2.len() - 1, map_last(ns2.last(), state_with_final(ns2.last().states.last()))));
        }
        self.push_empty(true);
    }
}

} // verus!
