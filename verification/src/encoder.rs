use vstd::prelude::*;
use crate::bytes::Clear;
use crate::codec::be_u32_bytes;
use crate::codec::encode_be_u32;
use crate::codec::encode_vu64;
use crate::codec::lemma_vu64_roundtrip;
use crate::codec::vu64_bytes;
use crate::error::FstError;
use crate::error::FstResult;
use crate::format::enc_wf;
use crate::format::rev_seq;
use crate::format::rev_vu64;
use crate::format::array_bytes;
use crate::format::array_header;
use crate::format::encode_arcs;
use crate::format::encode_node;
use crate::format::encode_state;
use crate::format::opt_vu64;
use crate::format::state_bytes;
use crate::format::state_flag;
use crate::format::EncV;
use crate::format::FIXED_ARRAY_NUM_STATE_DEEP;
use crate::format::NO_OUTPUT;
use crate::state::State;
use crate::state::UnCompiledNode;
use crate::state::ARCS_AS_FIXED_ARRAY;
use crate::state::BIT_FINAL_STATE;
use crate::state::BIT_LAST_STATE;
use crate::state::BIT_STATE_HAS_FINAL_OUTPUT;
use crate::state::BIT_STATE_HAS_OUPPUT;
use crate::state::BIT_STOP_NODE;
use crate::state::BIT_TAGET_NEXT;

verus! {

/// Writes compiled nodes to a byte buffer, each node after the nodes it points to.
pub struct Encoder {
    writer: Vec<u8>,
    last_forzen_node: u64,
    position: u64,
}

impl View for Encoder {
    type V = EncV;

    closed spec fn view(&self) -> EncV {
        EncV { bytes: self.writer@, last_frozen: self.last_forzen_node, position: self.position }
    }
}

impl Encoder {
    pub closed spec fn wf(&self) -> bool {
        enc_wf(self@)
    }

    pub fn new(w: Vec<u8>) -> (r: Encoder)
        ensures
            r@ == (EncV { bytes: w@, last_frozen: 0, position: 0 }),
            r.wf(),
    {
        Encoder { writer: w, last_forzen_node: 0, position: 0 }
    }

    /// Appends `b` back to front.
    fn append_rev(&mut self, b: &[u8])
        ensures
            final(self)@ == (EncV { bytes: old(self)@.bytes + rev_seq(b@), ..old(self)@ }),
            final(self)@.bytes.len() <= usize::MAX,
    {
        let ghost start = self.writer@;
        let n = b.len();
        let mut k = n;
        while k > 0
            invariant
                k <= n,
                n == b@.len(),
                self.writer@ == start + Seq::new((n - k) as nat, |j: int| b@[n - 1 - j]),
                self.last_forzen_node == old(self).last_forzen_node,
                self.position == old(self).position,
            decreases k,
        {
            k -= 1;
            self.writer.push(b[k]);
            assert(self.writer@ =~= start + Seq::new((n - k) as nat, |j: int| b@[n - 1 - j]));
        }
        assert(Seq::new((n - k) as nat, |j: int| b@[n - 1 - j]) =~= rev_seq(b@));
        let _len = self.writer.len();
    }

    /// Writes four bytes of `out`, least significant first; returns their count.
    pub fn write_u32(&mut self, out: u32) -> (r: FstResult<u64>)
        ensures
            final(self)@ == (EncV { bytes: old(self)@.bytes + rev_seq(be_u32_bytes(out)), ..old(self)@ }),
            r == Ok::<u64, FstError>(4),
            final(self)@.bytes.len() <= usize::MAX,
    {
        let buffer = encode_be_u32(out);
        self.append_rev(buffer.as_slice());
        Ok(4)
    }

    /// Writes the variable-length encoding of `out`, back to front; returns its length.
    pub fn write_vu64(&mut self, out: u64) -> (r: FstResult<u64>)
        ensures
            final(self)@ == (EncV { bytes: old(self)@.bytes + rev_vu64(out), ..old(self)@ }),
            r == Ok::<u64, FstError>(vu64_bytes(out).len() as u64),
            1 <= vu64_bytes(out).len() <= 10,
            rev_vu64(out).len() == vu64_bytes(out).len(),
            final(self)@.bytes.len() <= usize::MAX,
    {
        proof {
            reveal(rev_vu64);
            lemma_vu64_roundtrip(out, Seq::empty());
        }
        let b = encode_vu64(out);
        self.append_rev(b.as_slice());
        Ok(b.len() as u64)
    }

    pub fn write_u8(&mut self, u: u8) -> (r: FstResult<()>)
        ensures
            final(self)@ == (EncV { bytes: old(self)@.bytes.push(u), ..old(self)@ }),
            r is Ok,
            final(self)@.bytes.len() <= usize::MAX,
    {
        self.writer.push(u);
        let _len = self.writer.len();
        Ok(())
    }

    pub fn flush(&mut self) -> (r: FstResult<()>)
        ensures
            final(self)@ == old(self)@,
            r is Ok,
    {
        Ok(())
    }

    pub fn get_ref(&self) -> (r: &Vec<u8>)
        ensures
            r@ == self@.bytes,
    {
        &self.writer
    }

    pub fn reset(&mut self)
        ensures
            final(self)@ == (EncV { bytes: Seq::empty(), last_frozen: 0, position: 0 }),
            final(self).wf(),
    {
        self.writer.reset();
        self.last_forzen_node = 0;
        self.position = 0;
        assert(self.writer@ =~= Seq::<u8>::empty());
    }
}


impl Encoder {
    /// Writes one arc of a node: `first` is true for the node's last arc, which is
    /// written first; in a fixed-array node every target address is written.
    #[verifier::spinoff_prover]
    #[verifier::rlimit(30)]
    fn write_state(&mut self, _s: State, first: bool, fixed_able: bool) -> (r: FstResult<()>)
        requires
            old(self).wf(),
        ensures
            final(self).wf(),
            final(self)@ == encode_state(old(self)@, _s, first, fixed_able),
            r is Ok,
    {
        let ghost prev = self@;
        let flag = self.flag_of(_s, first, fixed_able);
        let next = _s.target > 0 && self.last_forzen_node == _s.target && !fixed_able;
        let ghost o1 = opt_vu64(_s.target > 0 && !next, _s.target);
        let ghost o2 = opt_vu64(_s.out != NO_OUTPUT, _s.out);
        let ghost o3 = opt_vu64(_s.final_out != NO_OUTPUT, _s.final_out);
        let _ = self.write_opt_vu64(_s.target > 0 && !next, _s.target);
        let _ = self.write_opt_vu64(_s.out != NO_OUTPUT, _s.out);
        let _ = self.write_opt_vu64(_s.final_out != NO_OUTPUT, _s.final_out);
        assert(self.writer@ == prev.bytes + o1 + o2 + o3);
        assert(self.position == prev.position + o1.len() + o2.len() + o3.len());
        let _ = self.write_u8(_s._in);
        let _ = self.write_u8(flag);
        self.position += 2;
        self.last_forzen_node = self.position;
        proof {
            let b = state_bytes(_s, first, prev.last_frozen, fixed_able);
            assert(b == o1 + o2 + o3 + seq![_s._in, flag]);
            assert(self.writer@ =~= prev.bytes + b);
            assert(self.position == prev.position + b.len());
        }
        Ok(())
    }

    /// The flag byte of an arc written now.
    fn flag_of(&self, _s: State, first: bool, fixed_able: bool) -> (flag: u8)
        ensures
            flag == state_flag(_s, first, self@.last_frozen, fixed_able),
    {
        reveal(state_flag);
        let mut flag: u8 = 0;
        if first {
            flag |= BIT_LAST_STATE;
        }
        if _s.is_final {
            flag |= BIT_FINAL_STATE;
        }
        if _s.target > 0 {
            if self.last_forzen_node == _s.target && !fixed_able {
                flag |= BIT_TAGET_NEXT;
            }
        } else {
            flag |= BIT_STOP_NODE;
        }
        if _s.out != NO_OUTPUT {
            flag |= BIT_STATE_HAS_OUPPUT;
        }
        if _s.final_out != NO_OUTPUT {
            flag |= BIT_STATE_HAS_FINAL_OUTPUT;
        }
        flag
    }

    /// Writes the reversed encoding of `x` when `c` holds, and counts its bytes.
    fn write_opt_vu64(&mut self, c: bool, x: u64) -> (r: FstResult<()>)
        requires
            old(self).wf(),
        ensures
            final(self).wf(),
            final(self)@.bytes == old(self)@.bytes + opt_vu64(c, x),
            final(self)@.last_frozen == old(self)@.last_frozen,
            final(self)@.position == old(self)@.position + opt_vu64(c, x).len(),
            final(self)@.bytes.len() <= usize::MAX,
            r is Ok,
    {
        reveal(opt_vu64);
        if c {
            let l = self.write_vu64(x)?;
            self.position += l;
        } else {
            assert(self.writer@ =~= self.writer@ + opt_vu64(c, x));
            let _len = self.writer.len();
        }
        Ok(())
    }

    /// Writes a node: its arcs, last first, each as target address, output, final
    /// output, input and flag; a node of more than ten arcs is followed by an
    /// array of the arcs' addresses and inputs and a header. Returns the node's
    /// address, the count of bytes written so far.
    pub fn add_node(&mut self, node: UnCompiledNode) -> (r: FstResult<u64>)
        requires
            old(self).wf(),
        ensures
            final(self).wf(),
            final(self)@ == encode_node(old(self)@, node@),
            r == Ok::<u64, FstError>(final(self)@.last_frozen),
    {
        let ghost e0 = self@;
        let ghost ns = node@.states;
        let n = node.states.len();
        let fixed_able = if n > FIXED_ARRAY_NUM_STATE_DEEP { true } else { false };
        let mut bytes_per_state: Vec<(u8, u32)> = Vec::new();
        let mut i: usize = 0;
        while i < n
            invariant
                n == ns.len(),
                ns == node@.states,
                fixed_able == (n > FIXED_ARRAY_NUM_STATE_DEEP),
                0 <= i <= n,
                self.wf(),
                self@ == encode_arcs(e0, ns, i as int, fixed_able),
                fixed_able ==> bytes_per_state@ == Seq::new(i as nat, |r: int|
                    (ns[n - 1 - r]._in, encode_arcs(e0, ns, r + 1, true).last_frozen as u32)),
            decreases n - i,
        {
            let _s = node.states[n - 1 - i];
            self.write_state(_s, i == 0, fixed_able)?;
            assert(ns[n - (i + 1)] == _s);
            if fixed_able {
                bytes_per_state.push((_s._in, #[verifier::truncate] (self.last_forzen_node as u32)));
            }
            i += 1;
            proof {
                if fixed_able {
                    assert(bytes_per_state@ =~= Seq::new(i as nat, |r: int|
                        (ns[n - 1 - r]._in, encode_arcs(e0, ns, r + 1, true).last_frozen as u32)));
                }
            }
        }
        if fixed_able {
            let ghost e1 = self@;
            let mut j: usize = 0;
            while j < n
                invariant
                    n == ns.len(),
                    n > FIXED_ARRAY_NUM_STATE_DEEP,
                    0 <= j <= n,
                    bytes_per_state@.len() == n,
                    bytes_per_state@ == Seq::new(n as nat, |r: int|
                        (ns[n - 1 - r]._in, encode_arcs(e0, ns, r + 1, true).last_frozen as u32)),
                    self@ == (EncV { bytes: e1.bytes + array_bytes(e0, ns, j as int), ..e1 }),
                decreases n - j,
            {
                let (x1, x2) = bytes_per_state[j];
                self.write_u32(x2)?;
                self.write_u8(x1)?;
                j += 1;
                proof {
                    assert(self.writer@ =~= e1.bytes + array_bytes(e0, ns, j as int));
                }
            }
            let l = self.write_vu64(bytes_per_state.len() as u64)? as u64;
            self.write_u8(0)?;
            self.write_u8(ARCS_AS_FIXED_ARRAY)?;
            proof {
                assert(self.writer@ =~= e1.bytes + (array_bytes(e0, ns, n as int) + array_header(n as nat)));
                assert(array_bytes(e0, ns, n as int).len() == 5 * n) by {
                    lemma_array_bytes_len(e0, ns, n as int);
                }
                assert(self.writer@.len() == e1.bytes.len() + 5 * n + l + 2);
                assert(e1.position <= e1.bytes.len());
            }
            self.position += (bytes_per_state.len() * 5) as u64 + l + 2;
            self.last_forzen_node = self.position;
        }
        Ok(self.last_forzen_node)
    }
}

proof fn lemma_array_bytes_len(e: EncV, states: Seq<State>, r: int)
    requires
        r >= 0,
    ensures
        array_bytes(e, states, r).len() == 5 * r,
    decreases r,
{
    if r > 0 {
        lemma_array_bytes_len(e, states, r - 1);
    }
}

} // verus!
