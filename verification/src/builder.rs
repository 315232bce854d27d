use vstd::prelude::*;
use crate::encoder::Encoder;
use crate::error::FstError;
use crate::error::FstResult;
use crate::format::encode_node;
use crate::format::EncV;
use crate::state::empty_node;
use crate::state::map_last;
use crate::state::match_len;
use crate::state::prefix_safe;
use crate::state::prefix_stack;
use crate::state::rest_out;
use crate::state::state_with_target;
use crate::state::suffix_stack;
use crate::state::NodeV;
use crate::state::UnCompiledNode;
use crate::state::UnCompiledNodes;

verus! {

/// The stack with the last arc of its top node pointing at `addr`.
pub open spec fn top_last_target(ns: Seq<NodeV>, addr: u64) -> Seq<NodeV> {
    if ns.len() == 0 {
        ns
    } else {
        ns.update(ns.len() - 1, map_last(ns.last(), state_with_target(ns.last().states.last(), addr)))
    }
}

/// Freezing the stack down to `p + 1` nodes: the top node (the empty node that
/// closes the last key) is dropped, then each node below it, deepest first, has
/// its last arc pointed at the node compiled before it and is compiled itself.
/// `addr` is the address of the node compiled last, -1 before the first step.
pub open spec fn freeze_loop(ns: Seq<NodeV>, e: EncV, p: int, addr: i64) -> (Seq<NodeV>, EncV, i64)
    decreases ns.len(),
{
    if ns.len() > p + 1 && ns.len() > 0 {
        if addr == -1 {
            freeze_loop(ns.drop_last(), e, p, 0)
        } else {
            let node = map_last(ns.last(), state_with_target(ns.last().states.last(), addr as u64));
            let e2 = encode_node(e, node);
            freeze_loop(ns.drop_last(), e2, p, e2.last_frozen as i64)
        }
    } else {
        (ns, e, addr)
    }
}

/// The stack and the encoder after freezing down to `p + 1` nodes; the kept top
/// node's last arc points at the node compiled last.
pub open spec fn freeze_spec(ns: Seq<NodeV>, e: EncV, p: int) -> (Seq<NodeV>, EncV) {
    let (ns2, e2, a) = freeze_loop(ns, e, p, -1i64);
    (top_last_target(ns2, a as u64), e2)
}

/// The abstract state of a builder: the stack of unfinished nodes and the encoder.
pub struct BuilderV {
    pub stack: Seq<NodeV>,
    pub enc: EncV,
}

/// Adding `key` with value `val`: match the common prefix with the last key, freeze
/// the nodes below it, then append the rest of the key.
pub open spec fn add_spec(b: BuilderV, key: Seq<u8>, val: u64) -> BuilderV {
    let p = match_len(b.stack, key);
    let ns1 = prefix_stack(b.stack, key, val);
    let out = rest_out(b.stack, val, p);
    let (ns2, e2) = freeze_spec(ns1, b.enc, p);
    BuilderV { stack: suffix_stack(ns2, key.subrange(p, key.len() as int), out as u64), enc: e2 }
}

/// Adding `key` is defined: the prefix matching stays inside the stack and within
/// the range of outputs, and a nonempty rest of the key has a node to hang from.
pub open spec fn add_ok(b: BuilderV, key: Seq<u8>, val: u64) -> bool {
    &&& prefix_safe(b.stack, key, val)
    &&& (b.stack.len() > 0 || key.len() == 0)
}

/// Finishing: freeze everything below the root, then compile the root.
pub open spec fn finish_spec(b: BuilderV) -> BuilderV {
    let (ns2, e2) = freeze_spec(b.stack, b.enc, 0);
    if ns2.len() > 0 {
        BuilderV { stack: ns2.drop_last(), enc: encode_node(e2, ns2.last()) }
    } else {
        BuilderV { stack: ns2, enc: e2 }
    }
}

/// Builds a transducer from keys added in order.
pub struct Builder {
    unfinished: UnCompiledNodes,
    encoder: Encoder,
}

impl View for Builder {
    type V = BuilderV;

    closed spec fn view(&self) -> BuilderV {
        BuilderV { stack: self.unfinished@, enc: self.encoder@ }
    }
}

impl Builder {
    pub closed spec fn wf(&self) -> bool {
        self.encoder.wf()
    }

    pub fn new(w: Vec<u8>) -> (r: Builder)
        ensures
            r.wf(),
            r@ == (BuilderV { stack: seq![empty_node(false)], enc: EncV { bytes: w@, last_frozen: 0, position: 0 } }),
    {
        let mut unfinished = UnCompiledNodes::new();
        unfinished.push_empty(false);
        let r = Builder { unfinished: unfinished, encoder: Encoder::new(w) };
        assert(r@.stack =~= seq![empty_node(false)]);
        r
    }

    pub fn get(&self) -> (r: &Vec<u8>)
        ensures
            r@ == self@.enc.bytes,
    {
        self.encoder.get_ref()
    }

    /// Adds a key with its value; keys are to be added in increasing order.
    pub fn add(&mut self, key: &[u8], val: u64) -> (r: FstResult<()>)
        requires
            old(self).wf(),
            add_ok(old(self)@, key@, val),
        ensures
            final(self).wf(),
            final(self)@ == add_spec(old(self)@, key@, val),
            r is Ok,
    {
        let (prefix_len, out) = self.unfinished.find_common_prefix(key, val);
        proof {
            crate::state::lemma_match_len_bound(old(self)@.stack, key@, 0);
        }
        self.freeze_tail(prefix_len)?;
        let ghost ns2 = self.unfinished@;
        proof {
            lemma_freeze_len(prefix_stack(old(self)@.stack, key@, val), old(self)@.enc, prefix_len as int);
        }
        let (_, rest) = key.split_at(prefix_len);
        self.unfinished.add_suffix(rest, out);
        Ok(())
    }

    /// Compiles the nodes below the first `prefix_len + 1` and points the kept top
    /// node at the last of them (see `freeze_spec`).
    fn freeze_tail(&mut self, prefix_len: usize) -> (r: FstResult<()>)
        requires
            old(self).wf(),
        ensures
            final(self).wf(),
            (final(self)@.stack, final(self)@.enc) == freeze_spec(old(self)@.stack, old(self)@.enc, prefix_len as int),
            r is Ok,
    {
        let ghost ns0 = self@.stack;
        let ghost e0 = self@.enc;
        let mut addr: i64 = -1;
        while self.unfinished.stack.len() > prefix_len && self.unfinished.stack.len() - prefix_len > 1
            invariant
                self.wf(),
                self.unfinished.stack@.len() == self@.stack.len(),
                freeze_loop(self@.stack, self@.enc, prefix_len as int, addr) == freeze_loop(ns0, e0, prefix_len as int, -1i64),
            decreases self.unfinished.stack@.len(),
        {
            if addr == -1 {
                self.unfinished.pop_empty();
                addr = 0;
            } else {
                match self.unfinished.pop_freeze() {
                    Some(mut unfinish_node) => {
                        unfinish_node.last_compiled(addr as u64);
                        addr = self.compile_node(unfinish_node)?;
                    },
                    None => {},
                }
            }
        }
        self.unfinished.top_last_freeze(addr as u64);
        Ok(())
    }

    fn compile_node(&mut self, node: UnCompiledNode) -> (r: FstResult<i64>)
        requires
            old(self).wf(),
        ensures
            final(self).wf(),
            final(self)@.stack == old(self)@.stack,
            final(self)@.enc == encode_node(old(self)@.enc, node@),
            r == Ok::<i64, FstError>(final(self)@.enc.last_frozen as i64),
    {
        let addr = self.encoder.add_node(node)?;
        Ok(addr as i64)
    }

    /// Compiles every node left, the root last.
    pub fn finish(&mut self) -> (r: FstResult<()>)
        requires
            old(self).wf(),
        ensures
            final(self).wf(),
            final(self)@ == finish_spec(old(self)@),
            r is Ok,
    {
        self.freeze_tail(0)?;
        if let Some(node) = self.unfinished.pop_root() {
            self.encoder.add_node(node)?;
        }
        Ok(())
    }

    pub fn bytes(&self) -> (r: &Vec<u8>)
        ensures
            r@ == self@.enc.bytes,
    {
        self.encoder.get_ref()
    }

    /// Empties the builder for a new transducer.
    pub fn reset(&mut self)
        ensures
            final(self).wf(),
            final(self)@ == (BuilderV { stack: seq![empty_node(false)], enc: EncV { bytes: Seq::empty(), last_frozen: 0, position: 0 } }),
    {
        self.unfinished.reset();
        self.unfinished.push_empty(false);
        self.encoder.reset();
        assert(self@.stack =~= seq![empty_node(false)]);
    }
}

/// Freezing down to `p + 1` nodes leaves at most `p + 1` nodes, and keeps a
/// stack that had that many.
pub proof fn lemma_freeze_len(ns: Seq<NodeV>, e: EncV, p: int)
    requires
        p >= 0,
    ensures
        freeze_spec(ns, e, p).0.len() == if ns.len() > p + 1 { p + 1 } else { ns.len() as int },
{
    lemma_freeze_loop_len(ns, e, p, -1i64);
}

proof fn lemma_freeze_loop_len(ns: Seq<NodeV>, e: EncV, p: int, addr: i64)
    requires
        p >= 0,
    ensures
        freeze_loop(ns, e, p, addr).0.len() == if ns.len() > p + 1 { p + 1 } else { ns.len() as int },
    decreases ns.len(),
{
    if ns.len() > p + 1 && ns.len() > 0 {
        if addr == -1 {
            lemma_freeze_loop_len(ns.drop_last(), e, p, 0);
        } else {
            let node = map_last(ns.last(), state_with_target(ns.last().states.last(), addr as u64));
            let e2 = encode_node(e, node);
            lemma_freeze_loop_len(ns.drop_last(), e2, p, e2.last_frozen as i64);
        }
    }
}

} // verus!
