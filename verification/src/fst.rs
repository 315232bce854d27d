use vstd::prelude::*;
use crate::decoder::reports;
use crate::decoder::Decoder;
use crate::decoder::END_LABEL;
use crate::error::FstError;
use crate::error::FstResult;
use crate::reading::read_first_target;
use crate::reading::next_arc;
use crate::reading::spec_get;
use crate::reading::Step;
use crate::state::fresh_state;
use crate::state::has_flag;
use crate::state::State;
use crate::state::BIT_LAST_STATE;

verus! {

/// A transducer held as the bytes a `Builder` wrote.
pub struct FST {
    data: Vec<u8>,
}

impl FST {
    pub closed spec fn data(&self) -> Seq<u8> {
        self.data@
    }

    pub fn load(data: Vec<u8>) -> (r: FST)
        ensures
            r.data() == data@,
    {
        FST { data: data }
    }

    /// The value of `key`: the outputs along its path and the final output of its
    /// last arc; `NotFound` or `Greater` when no path spells it.
    pub fn get(&self, key: &[u8]) -> (r: FstResult<u64>)
        requires
            !(spec_get(self.data(), key@) is Crash),
        ensures
            reports(r, spec_get(self.data(), key@), |v: (u64, int)| r == Ok::<u64, FstError>(v.0)),
    {
        let mut decoder = Decoder::new(self.data.as_slice());
        decoder.get(key)
    }

    pub fn get_ref(&self) -> (r: &Vec<u8>)
        ensures
            r@ == self.data(),
    {
        &self.data
    }

    pub fn iter<'a>(&'a self) -> (r: FstIterator<'a>)
        ensures
            r.data() == self.data(),
            r@ == start_iter(self.data()),
    {
        FstIterator::new(self)
    }
}

/// A key returned by iteration.
#[derive(Clone, Debug)]
pub struct Cow {
    data: Vec<u8>,
}

impl View for Cow {
    type V = Seq<u8>;

    closed spec fn view(&self) -> Seq<u8> {
        self.data@
    }
}

impl Cow {
    pub fn as_ref(&self) -> (r: &[u8])
        ensures
            r@ == self@,
    {
        self.data.as_slice()
    }
}

/// The abstract state of an iteration: the reader's position, the arcs on the
/// current path (index 0 is a pseudo-arc above the root), the depth `upto`, the
/// sums of outputs along the path, and the inputs along it.
pub struct IterV {
    pub pos: int,
    pub states: Seq<State>,
    pub upto: int,
    pub out: Seq<u64>,
    pub input: Seq<u8>,
}

/// Iteration starts above the root with ten slots of each kind.
pub open spec fn start_iter(data: Seq<u8>) -> IterV {
    IterV {
        pos: data.len() as int,
        states: Seq::new(10, |i: int| fresh_state(0, 0)),
        upto: 0,
        out: Seq::new(10, |i: int| 0u64),
        input: Seq::new(10, |i: int| 0u8),
    }
}

pub open spec fn iter_wf(v: IterV) -> bool {
    &&& 0 <= v.upto
    &&& v.upto < v.states.len()
    &&& v.upto < v.out.len()
    &&& v.upto < v.input.len()
    &&& v.states.len() >= 2
}

/// `s` extended with `x` to at least `n` items.
pub open spec fn pad<T>(s: Seq<T>, n: int, x: T) -> Seq<T> {
    if s.len() >= n { s } else { s + Seq::new((n - s.len()) as nat, |i: int| x) }
}

/// The slots extended to hold depth `upto`.
pub open spec fn grow_spec(v: IterV) -> IterV {
    let n = v.upto + 1;
    IterV { input: pad(v.input, n, 0u8), states: pad(v.states, n, fresh_state(0, 0)), out: pad(v.out, n, 0u64), ..v }
}

/// Descending along first arcs from depth `upto` until an arc with input 255 (the
/// end of a key) is reached, summing outputs and recording inputs; `fuel` bounds
/// the number of steps.
pub open spec fn push_first_spec(data: Seq<u8>, v: IterV, fuel: nat) -> Step<IterV>
    decreases fuel,
{
    if fuel == 0 || !(1 <= v.upto < v.states.len() && v.upto < v.out.len() && v.upto < v.input.len()) || v.upto + 2 > usize::MAX {
        Step::Crash
    } else {
        let st = v.states[v.upto];
        let o = v.out[v.upto - 1] + st.out;
        if o > u64::MAX {
            Step::Crash
        } else {
            let out2 = v.out.update(v.upto, o as u64);
            if st._in == 255 {
                Step::Done(IterV { out: out2, ..v })
            } else {
                let v2 = grow_spec(IterV { out: out2, input: v.input.update(v.upto, st._in), upto: v.upto + 1, ..v });
                match read_first_target(data, v2.states[v2.upto - 1], v2.states[v2.upto], v2.pos) {
                    Step::Done((s, p)) => push_first_spec(data, IterV { states: v2.states.update(v2.upto, s), pos: p, ..v2 }, (fuel - 1) as nat),
                    Step::Fail(e) => Step::Fail(e),
                    Step::Crash => Step::Crash,
                }
            }
        }
    }
}

/// The depth to continue from: climbing past last arcs; 0 when iteration is over.
pub open spec fn climb(states: Seq<State>, u: int) -> int
    decreases u,
{
    if u <= 0 || u >= states.len() {
        0
    } else if has_flag(states[u].flag, BIT_LAST_STATE) {
        if u - 1 == 0 { 0 } else { climb(states, u - 1) }
    } else {
        u
    }
}

/// One step of iteration: at the start descend from the root; afterwards climb
/// past last arcs, move to the next arc (see `next_arc`) and descend from it.
pub open spec fn do_next_spec(data: Seq<u8>, v: IterV, fuel: nat) -> Step<IterV> {
    if v.upto == 0 {
        match read_first_target(data, v.states[0], v.states[1], v.pos) {
            Step::Done((s, p)) => push_first_spec(data, IterV { upto: 1, states: v.states.update(1, s), pos: p, ..v }, fuel),
            Step::Fail(e) => Step::Fail(e),
            Step::Crash => Step::Crash,
        }
    } else {
        let u = climb(v.states, v.upto);
        if u == 0 {
            Step::Done(IterV { upto: 0, ..v })
        } else {
            match next_arc(data, v.states[u], v.pos) {
                Step::Done((s, p)) => push_first_spec(data, IterV { upto: u, states: v.states.update(u, s), pos: p, ..v }, fuel),
                Step::Fail(e) => Step::Fail(e),
                Step::Crash => Step::Crash,
            }
        }
    }
}

/// The next step of iteration from `v` ends, neither reading outside the bytes
/// nor overflowing a sum.
pub open spec fn can_step(data: Seq<u8>, v: IterV) -> bool {
    exists|f: nat| !(#[trigger] do_next_spec(data, v, f) is Crash)
}

/// The outcome of the next step of iteration from `v`.
pub open spec fn next_step(data: Seq<u8>, v: IterV) -> Step<IterV> {
    do_next_spec(data, v, choose|f: nat| !(#[trigger] do_next_spec(data, v, f) is Crash))
}

/// Iterates over the keys of a transducer in order, with their values.
pub struct FstIterator<'a> {
    decoder: Decoder<'a>,
    states: Vec<State>,
    upto: usize,
    out: Vec<u64>,
    input: Vec<u8>,
}

impl<'a> View for FstIterator<'a> {
    type V = IterV;

    closed spec fn view(&self) -> IterV {
        IterV { pos: self.decoder.pos(), states: self.states@, upto: self.upto as int, out: self.out@, input: self.input@ }
    }
}

impl<'a> FstIterator<'a> {
    pub closed spec fn data(&self) -> Seq<u8> {
        self.decoder.data()
    }

    pub fn new(fst: &'a FST) -> (r: FstIterator<'a>)
        ensures
            r.data() == fst.data(),
            r@ == start_iter(fst.data()),
    {
        let decoder = Decoder::new(fst.data.as_slice());
        let mut states: Vec<State> = Vec::new();
        let mut out: Vec<u64> = Vec::new();
        let mut input: Vec<u8> = Vec::new();
        let mut k: usize = 0;
        while k < 10
            invariant
                0 <= k <= 10,
                states@ == Seq::new(k as nat, |i: int| fresh_state(0, 0)),
                out@ == Seq::new(k as nat, |i: int| 0u64),
                input@ == Seq::new(k as nat, |i: int| 0u8),
            decreases 10 - k,
        {
            states.push(State::new(0, 0));
            out.push(0);
            input.push(0);
            k += 1;
            assert(states@ =~= Seq::new(k as nat, |i: int| fresh_state(0, 0)));
            assert(out@ =~= Seq::new(k as nat, |i: int| 0u64));
            assert(input@ =~= Seq::new(k as nat, |i: int| 0u8));
        }
        FstIterator { decoder: decoder, states: states, upto: 0, out: out, input: input }
    }

    /// One step of iteration (see `do_next_spec`).
    fn do_next(&mut self, Ghost(fuel): Ghost<nat>) -> (r: FstResult<()>)
        requires
            iter_wf(old(self)@),
            !(do_next_spec(old(self).data(), old(self)@, fuel) is Crash),
        ensures
            final(self).data() == old(self).data(),
            reports(r, do_next_spec(old(self).data(), old(self)@, fuel), |v: IterV| final(self)@ == v),
            r is Ok ==> iter_wf(final(self)@),
    {
        if self.upto == 0 {
            self.upto = 1;
            let follow = self.states[0];
            let mut next = self.states[1];
            self.decoder.read_first_target_state(&follow, &mut next)?;
            self.states.set(1, next);
        } else {
            let ghost u = climb(self.states@, self.upto as int);
            while self.states[self.upto].is_last()
                invariant
                    1 <= self.upto < self.states@.len(),
                    iter_wf(self@),
                    u == climb(old(self).states@, old(self).upto as int),
                    old(self).upto >= 1,
                    self.states@ == old(self).states@,
                    climb(self.states@, self.upto as int) == u,
                    self@ == (IterV { upto: self.upto as int, ..old(self)@ }),
                    self.data() == old(self).data(),
                decreases self.upto,
            {
                self.upto -= 1;
                if self.upto == 0 {
                    assert(climb(self.states@, 1) == 0);
                    assert(u == 0);
                    assert(self@ == (IterV { upto: 0, ..old(self)@ }));
                    assert(do_next_spec(old(self).data(), old(self)@, fuel) == Step::Done(self@));
                    return Ok(());
                }
            }
            let mut next = self.states[self.upto];
            if next._in == END_LABEL {
                // the key just yielded goes on: continue with the first arc below it
                let follow = State { target: next.next_state, ..next };
                self.decoder.read_next_state_from_follow(&follow, &mut next)?;
            } else {
                self.decoder.read_next_state(next.next_state, &mut next)?;
            }
            self.states.set(self.upto, next);
        }
        self.push_first(Ghost(fuel))?;
        Ok(())
    }

    /// Descends along first arcs to the end of the next key (see `push_first_spec`).
    fn push_first(&mut self, Ghost(fuel): Ghost<nat>) -> (r: FstResult<()>)
        requires
            !(push_first_spec(old(self).data(), old(self)@, fuel) is Crash),
        ensures
            final(self).data() == old(self).data(),
            reports(r, push_first_spec(old(self).data(), old(self)@, fuel), |v: IterV| final(self)@ == v),
            r is Ok ==> iter_wf(final(self)@),
    {
        let ghost goal = push_first_spec(self.data(), self@, fuel);
        let ghost mut f = fuel;
        loop
            invariant_except_break
                push_first_spec(self.data(), self@, f) == goal,
            invariant
                self.data() == old(self).data(),
                goal == push_first_spec(old(self).data(), old(self)@, fuel),
                !(goal is Crash),
            ensures
                goal == Step::Done(self@),
                iter_wf(self@),
            decreases f,
        {
            let upto = self.upto;
            let st = self.states[upto];
            let o = self.out[upto - 1] + st.out;
            self.out.set(upto, o);
            if st._in == END_LABEL {
                break;
            }
            self.input.set(upto, st._in);
            self.incr();
            let follow = self.states[self.upto - 1];
            let mut next = self.states[self.upto];
            self.decoder.read_first_target_state(&follow, &mut next)?;
            self.states.set(self.upto, next);
            proof {
                f = (f - 1) as nat;
            }
        }
        Ok(())
    }

    fn incr(&mut self)
        requires
            old(self).upto < old(self).states@.len(),
            old(self).upto + 2 <= usize::MAX,
        ensures
            final(self)@ == grow_spec(IterV { upto: old(self)@.upto + 1, ..old(self)@ }),
            final(self).data() == old(self).data(),
    {
        let _l = self.states.len();
        self.upto += 1;
        self.grow();
    }

    /// Extends the slots to hold depth `upto`.
    fn grow(&mut self)
        requires
            old(self).upto < usize::MAX,
        ensures
            final(self)@ == grow_spec(old(self)@),
            final(self).data() == old(self).data(),
    {
        let size = self.upto + 1;
        let ghost v0 = self@;
        while self.input.len() < size
            invariant
                size == self.upto + 1,
                self.input@ == v0.input + Seq::new((self.input@.len() - v0.input.len()) as nat, |i: int| 0u8),
                self.input@.len() >= v0.input.len(),
                v0.input.len() >= size ==> self.input@.len() == v0.input.len(),
                v0.input.len() < size ==> self.input@.len() <= size,
                self.states@ == v0.states,
                self.out@ == v0.out,
                self.upto == v0.upto,
                self.decoder == old(self).decoder,
            decreases size - self.input@.len(),
        {
            self.input.push(0);
            assert(self.input@ =~= v0.input + Seq::new((self.input@.len() - v0.input.len()) as nat, |i: int| 0u8));
        }
        assert(self.input@ =~= pad(v0.input, size as int, 0u8));
        while self.states.len() < size
            invariant
                size == self.upto + 1,
                self.states@ == v0.states + Seq::new((self.states@.len() - v0.states.len()) as nat, |i: int| fresh_state(0, 0)),
                self.states@.len() >= v0.states.len(),
                v0.states.len() >= size ==> self.states@.len() == v0.states.len(),
                v0.states.len() < size ==> self.states@.len() <= size,
                self.input@ == pad(v0.input, size as int, 0u8),
                self.out@ == v0.out,
                self.upto == v0.upto,
                self.decoder == old(self).decoder,
            decreases size - self.states@.len(),
        {
            self.states.push(State::new(0, 0));
            assert(self.states@ =~= v0.states + Seq::new((self.states@.len() - v0.states.len()) as nat, |i: int| fresh_state(0, 0)));
        }
        assert(self.states@ =~= pad(v0.states, size as int, fresh_state(0, 0)));
        while self.out.len() < size
            invariant
                size == self.upto + 1,
                self.out@ == v0.out + Seq::new((self.out@.len() - v0.out.len()) as nat, |i: int| 0u64),
                self.out@.len() >= v0.out.len(),
                v0.out.len() >= size ==> self.out@.len() == v0.out.len(),
                v0.out.len() < size ==> self.out@.len() <= size,
                self.input@ == pad(v0.input, size as int, 0u8),
                self.states@ == pad(v0.states, size as int, fresh_state(0, 0)),
                self.upto == v0.upto,
                self.decoder == old(self).decoder,
            decreases size - self.out@.len(),
        {
            self.out.push(0);
            assert(self.out@ =~= v0.out + Seq::new((self.out@.len() - v0.out.len()) as nat, |i: int| 0u64));
        }
        assert(self.out@ =~= pad(v0.out, size as int, 0u64));
    }

    /// The next key and its value, in key order; `None` at the end or when the
    /// bytes cannot be read.
    pub fn next(&mut self) -> (r: Option<(Cow, u64)>)
        requires
            iter_wf(old(self)@),
            can_step(old(self).data(), old(self)@),
        ensures
            final(self).data() == old(self).data(),
            match next_step(old(self).data(), old(self)@) {
                Step::Done(v) => final(self)@ == v && iter_wf(v) && (if v.upto == 0 {
                    r is None
                } else {
                    r matches Some((k, o)) && k@ == v.input.subrange(1, v.upto) && o == v.out[v.upto]
                }),
                Step::Fail(_) => r is None,
                Step::Crash => false,
            },
    {
        let ghost fuel = choose|f: nat| !(#[trigger] do_next_spec(self.data(), self@, f) is Crash);
        if !self.do_next(Ghost(fuel)).is_ok() {
            return None;
        }
        if self.upto == 0 {
            return None;
        } else {
            let (_, rest) = self.input.as_slice().split_at(1);
            let (key, _) = rest.split_at(self.upto - 1);
            let mut k: Vec<u8> = Vec::new();
            let mut j: usize = 0;
            while j < key.len()
                invariant
                    0 <= j <= key.len(),
                    k@ == key@.subrange(0, j as int),
                decreases key.len() - j,
            {
                k.push(key[j]);
                j += 1;
                assert(k@ =~= key@.subrange(0, j as int));
            }
            assert(k@ =~= self.input@.subrange(1, self.upto as int));
            return Some((Cow { data: k }, self.out[self.upto]));
        }
    }
}

} // verus!
