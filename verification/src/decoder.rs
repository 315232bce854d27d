use vstd::prelude::*;
use crate::codec::decode_be_u32;
use crate::codec::decode_vu64;
use crate::error::eof_error;
use crate::error::is_read_err;
use crate::error::ReadErr;
use crate::error::FstError;
use crate::error::FstResult;
use crate::reading::bisect;
use crate::reading::bytes_before;
use crate::reading::find_target;
use crate::reading::get_from;
use crate::reading::get_walk;
use crate::reading::lemma_read_state_progress;
use crate::reading::read_be_u32_at;
use crate::reading::read_byte_at;
use crate::reading::read_first_target;
use crate::reading::read_from_follow;
use crate::reading::read_next_state_at;
use crate::reading::read_state_at;
use crate::reading::read_state_fields;
use crate::reading::read_state_left;
use crate::reading::next_state_pos;
use crate::reading::read_vu64_at;
use crate::reading::scan_arcs;
use crate::reading::vu64_consumed;
use crate::reading::Step;
use crate::state::State;
use crate::state::ARCS_AS_FIXED_ARRAY;
use crate::state::BIT_FINAL_STATE;
use crate::state::BIT_LAST_STATE;
use crate::state::BIT_STATE_HAS_FINAL_OUTPUT;
use crate::state::BIT_STATE_HAS_OUPPUT;
use crate::state::BIT_STOP_NODE;
use crate::state::BIT_TAGET_NEXT;

verus! {

/// The input label of the pseudo-arc that marks the end of a key while iterating.
pub const END_LABEL: u8 = 255;

/// The target of the pseudo-arc that marks the end of a key.
pub const FINAL_END_NODE: u64 = 0;

/// `r` is what reading reports for the outcome `o`, where `done` says what a
/// successful read leaves behind.
pub open spec fn reports<T, U>(r: FstResult<U>, o: Step<T>, done: spec_fn(T) -> bool) -> bool {
    match o {
        Step::Done(v) => r is Ok && done(v),
        Step::Fail(k) => r matches Err(e) && is_read_err(e, k),
        Step::Crash => false,
    }
}

/// Copies the first items of `src` into the start of `des`, as many as both
/// hold; returns how many.
pub fn copy_slice<T: Copy>(des: &mut [T], src: &[T]) -> (r: usize)
    ensures
        r == (if old(des)@.len() < src@.len() { old(des)@.len() } else { src@.len() }),
        final(des)@ == src@.subrange(0, r as int) + old(des)@.subrange(r as int, old(des)@.len() as int),
{
    let l = if des.len() < src.len() {
        des.len()
    } else {
        src.len()
    };
    let mut i: usize = 0;
    while i < l
        invariant
            l <= des@.len(),
            l <= src@.len(),
            des@.len() == old(des)@.len(),
            0 <= i <= l,
            l == (if old(des)@.len() < src@.len() { old(des)@.len() } else { src@.len() }),
            des@ == src@.subrange(0, i as int) + old(des)@.subrange(i as int, old(des)@.len() as int),
        decreases l - i,
    {
        des[i] = src[i];
        i += 1;
        assert(des@ =~= src@.subrange(0, i as int) + old(des)@.subrange(i as int, old(des)@.len() as int));
    }
    l
}

/// Reads a byte slice from its end towards its start.
pub struct ReverseReader<'a> {
    i: usize,
    data: &'a [u8],
}

impl<'a> ReverseReader<'a> {
    /// The bytes read.
    pub closed spec fn data(&self) -> Seq<u8> {
        self.data@
    }

    /// The count of bytes not yet read; the next byte read is the one before it.
    pub closed spec fn pos(&self) -> int {
        self.i as int
    }

    pub fn new(data: &'a [u8]) -> (r: ReverseReader<'a>)
        ensures
            r.data() == data@,
            r.pos() == data@.len(),
    {
        ReverseReader { i: data.len(), data: data }
    }

    pub fn reset(&mut self)
        ensures
            final(self).data() == old(self).data(),
            final(self).pos() == old(self).data().len(),
    {
        self.i = self.data.len();
    }

    pub fn set_position(&mut self, postion: usize)
        ensures
            final(self).data() == old(self).data(),
            final(self).pos() == postion,
    {
        self.i = postion;
    }

    pub fn skip_bytes(&mut self, skip: usize)
        requires
            skip <= old(self).pos(),
        ensures
            final(self).data() == old(self).data(),
            final(self).pos() == old(self).pos() - skip,
    {
        self.i = self.i - skip;
    }

    pub fn read_byte(&mut self) -> (b: u8)
        requires
            1 <= old(self).pos() <= old(self).data().len(),
        ensures
            final(self).data() == old(self).data(),
            b == old(self).data()[old(self).pos() - 1],
            final(self).pos() == old(self).pos() - 1,
    {
        let b = self.data[self.i - 1];
        self.i -= 1;
        b
    }

    pub fn get_position(&self) -> (r: usize)
        ensures
            r == self.pos(),
    {
        self.i
    }

    /// Fills `buf` with the next bytes, read back to front; fails when no byte is
    /// left.
    pub fn read(&mut self, buf: &mut [u8]) -> (r: FstResult<usize>)
        requires
            old(self).pos() <= old(self).data().len(),
            old(self).pos() == 0 || old(buf)@.len() <= old(self).pos(),
        ensures
            final(self).data() == old(self).data(),
            old(self).pos() == 0 ==> (r matches Err(e) && is_read_err(e, ReadErr::Eof)) && final(self).pos() == 0
                && final(buf)@ == old(buf)@,
            old(self).pos() > 0 ==> r == Ok::<usize, FstError>(old(buf)@.len() as usize)
                && final(buf)@ == bytes_before(old(self).data(), old(self).pos(), old(buf)@.len() as int)
                && final(self).pos() == old(self).pos() - old(buf)@.len(),
    {
        if self.i == 0 {
            return Err(eof_error());
        }
        let n = buf.len();
        let mut j: usize = 0;
        while j < n
            invariant
                n == buf@.len(),
                n == old(buf)@.len(),
                0 <= j <= n,
                n <= old(self).pos(),
                self.data() == old(self).data(),
                self.pos() == old(self).pos() - j,
                self.pos() <= self.data().len(),
                forall|x: int| 0 <= x < j ==> buf@[x] == bytes_before(old(self).data(), old(self).pos(), n as int)[x],
            decreases n - j,
        {
            let b = self.read_byte();
            buf[j] = b;
            j += 1;
        }
        proof {
            assert(buf@ =~= bytes_before(old(self).data(), old(self).pos(), n as int));
        }
        Ok(n)
    }

    /// Reads one byte; fails at the start of the bytes.
    pub fn read_u8(&mut self) -> (r: FstResult<u8>)
        requires
            old(self).pos() <= old(self).data().len(),
        ensures
            final(self).data() == old(self).data(),
            reports(r, read_byte_at(old(self).data(), old(self).pos()),
                |v: (u8, int)| r == Ok::<u8, FstError>(v.0) && final(self).pos() == v.1),
            r is Err ==> final(self).pos() == old(self).pos(),
    {
        if self.i == 0 {
            return Err(eof_error());
        }
        Ok(self.read_byte())
    }

    /// Reads a variable-length integer; a malformed one reads as 0.
    pub fn read_vu64(&mut self) -> (r: (u64, i32))
        requires
            old(self).pos() <= old(self).data().len(),
        ensures
            final(self).data() == old(self).data(),
            read_vu64_at(old(self).data(), old(self).pos()) == Step::Done((r.0, final(self).pos())),
    {
        let k: usize = if self.i < 11 { self.i } else { 11 };
        let mut buf: Vec<u8> = Vec::new();
        let mut j: usize = 0;
        while j < k
            invariant
                k <= self.i,
                self.i <= self.data@.len(),
                0 <= j <= k,
                buf@ == bytes_before(self.data@, self.i as int, j as int),
            decreases k - j,
        {
            buf.push(self.data[self.i - 1 - j]);
            j += 1;
            assert(buf@ =~= bytes_before(self.data@, self.i as int, j as int));
        }
        let (v, n) = decode_vu64(buf.as_slice());
        proof {
            crate::codec::lemma_vu64_scan_bound(buf@);
        }
        let used: usize = if n > 0 { n as usize } else if n < 0 { (0 - n) as usize } else { k };
        assert(used == vu64_consumed(n as int, k as int));
        self.i = self.i - used;
        (v, n)
    }

    /// Reads four bytes as a number, most significant first.
    pub fn read_u32_be(&mut self) -> (r: FstResult<u32>)
        requires
            old(self).pos() <= old(self).data().len(),
        ensures
            final(self).data() == old(self).data(),
            reports(r, read_be_u32_at(old(self).data(), old(self).pos()),
                |v: (u32, int)| r == Ok::<u32, FstError>(v.0) && final(self).pos() == v.1),
            r is Err ==> final(self).pos() == old(self).pos(),
    {
        if self.i < 4 {
            return Err(eof_error());
        }
        let mut buf: Vec<u8> = Vec::new();
        let mut j: usize = 0;
        while j < 4
            invariant
                4 <= self.i <= self.data@.len(),
                0 <= j <= 4,
                buf@ == bytes_before(self.data@, self.i as int, j as int),
            decreases 4 - j,
        {
            buf.push(self.data[self.i - 1 - j]);
            j += 1;
            assert(buf@ =~= bytes_before(self.data@, self.i as int, j as int));
        }
        let v = decode_be_u32(buf.as_slice());
        self.i = self.i - 4;
        Ok(v)
    }
}

/// Reads arcs back from the bytes of a transducer.
pub struct Decoder<'a> {
    reader: ReverseReader<'a>,
}

impl<'a> Decoder<'a> {
    pub closed spec fn data(&self) -> Seq<u8> {
        self.reader.data()
    }

    pub closed spec fn pos(&self) -> int {
        self.reader.pos()
    }

    pub fn new(data: &'a [u8]) -> (r: Decoder<'a>)
        ensures
            r.data() == data@,
            r.pos() == data@.len(),
    {
        Decoder { reader: ReverseReader::new(data) }
    }

    pub fn reset(&mut self)
        ensures
            final(self).data() == old(self).data(),
            final(self).pos() == old(self).data().len(),
    {
        self.reader.reset()
    }

    /// Reads the arc that ends at the reader's position into `state`.
    pub fn read_state(&mut self, state: &mut State) -> (r: FstResult<()>)
        requires
            !(read_state_at(old(self).data(), old(self).pos()) is Crash),
        ensures
            final(self).data() == old(self).data(),
            reports(r, read_state_at(old(self).data(), old(self).pos()),
                |v: (State, int)| *final(state) == v.0 && final(self).pos() == v.1),
            r is Err ==> (*final(state), final(self).pos()) == read_state_left(old(self).data(), old(self).pos()),
    {
        let ghost data = self.data();
        let ghost i0 = self.pos();
        state.reset();
        state.flag = self.reader.read_u8()?;
        state._in = self.reader.read_u8()?;
        let ghost flag = state.flag;
        let ghost inp = state._in;
        let ghost i2 = self.pos();
        if state.flag(BIT_STATE_HAS_FINAL_OUTPUT) || state.flag(ARCS_AS_FIXED_ARRAY) {
            let (v, _) = self.reader.read_vu64();
            state.final_out = v;
        }
        if state.flag(BIT_STATE_HAS_OUPPUT) {
            let (v, _) = self.reader.read_vu64();
            state.out = v;
        }
        if state.flag(BIT_STOP_NODE) {
            state.target = 0;
        } else {
            if !state.flag(BIT_TAGET_NEXT) && !state.flag(ARCS_AS_FIXED_ARRAY) {
                let (v, _) = self.reader.read_vu64();
                state.target = v;
            } else {
                state.target = self.reader.get_position() as u64;
            }
        }
        state.next_state = self.reader.get_position() as u64;
        proof {
            assert(read_state_fields(data, flag, inp, i2) == (*state, self.pos()));
        }
        Ok(())
    }

    /// Reads the arc at `target`, or at the reader's position when `target` is 0.
    pub fn read_next_state(&mut self, target: u64, state: &mut State) -> (r: FstResult<()>)
        requires
            !(read_next_state_at(old(self).data(), target, old(self).pos()) is Crash),
        ensures
            final(self).data() == old(self).data(),
            reports(r, read_next_state_at(old(self).data(), target, old(self).pos()),
                |v: (State, int)| *final(state) == v.0 && final(self).pos() == v.1),
            r is Err ==> (*final(state), final(self).pos())
                == read_state_left(old(self).data(), next_state_pos(target, old(self).pos())),
    {
        if target > 0 {
            self.reader.set_position(target as usize);
        }
        self.read_state(state)
    }

    /// Follows `state` to its arc with input `_in` (see `find_target`).
    pub fn find_target_state(&mut self, _in: u8, state: &mut State) -> (r: FstResult<()>)
        requires
            !(find_target(old(self).data(), *old(state), old(self).pos(), _in) is Crash),
        ensures
            final(self).data() == old(self).data(),
            reports(r, find_target(old(self).data(), *old(state), old(self).pos(), _in),
                |v: (State, int)| *final(state) == v.0 && final(self).pos() == v.1),
    {
        let ghost data = self.data();
        let ghost goal = find_target(data, *state, self.pos(), _in);
        self.read_next_state(state.target, state)?;
        if state.flag(ARCS_AS_FIXED_ARRAY) {
            let num_states = state.final_out;
            let mut low: u64 = 0;
            let mut high: u64 = num_states - 1;
            let start = self.reader.get_position();
            while low <= high
                invariant
                    self.data() == data,
                    data == old(self).data(),
                    goal == find_target(old(self).data(), *old(state), old(self).pos(), _in),
                    bisect(data, start as int, _in, low, high) == goal,
                    !(goal is Crash),
                decreases high - low + 1,
            {
                let mid = (low + high) >> 1;
                assert(mid <= high && mid >= low) by (bit_vector)
                    requires
                        low <= high,
                        low + high <= u64::MAX,
                        mid == ((low + high) as u64) >> 1u64,
                ;
                self.reader.set_position(start - (mid * 5) as usize);
                let mid_label = self.reader.read_u8()?;
                if mid_label < _in {
                    low = mid + 1;
                } else if mid_label > _in {
                    if mid == 0 {
                        // below the smallest label of the array
                        return Err(FstError::NotFound);
                    }
                    high = mid - 1;
                } else {
                    let position = self.reader.read_u32_be()? as usize;
                    self.reader.set_position(position);
                    self.read_state(state)?;
                    return Ok(());
                }
            }
            return Err(FstError::NotFound);
        }
        loop
            invariant
                self.data() == data,
                data == old(self).data(),
                goal == find_target(old(self).data(), *old(state), old(self).pos(), _in),
                scan_arcs(data, *state, self.pos(), _in) == goal,
                !(goal is Crash),
            decreases self.pos(),
        {
            if state._in == _in {
                return Ok(());
            } else if state._in > _in {
                return Err(FstError::Greater);
            } else if state.is_last() {
                return Err(FstError::NotFound);
            } else {
                proof {
                    lemma_read_state_progress(data, self.pos());
                }
                self.read_state(state)?;
            }
        }
    }

    /// Looks up `key` from the node that ends at the reader's position: the sum of
    /// the outputs on its path and the final output of its last arc.
    pub fn get(&mut self, key: &[u8]) -> (r: FstResult<u64>)
        requires
            !(get_from(old(self).data(), old(self).pos(), key@) is Crash),
        ensures
            final(self).data() == old(self).data(),
            reports(r, get_from(old(self).data(), old(self).pos(), key@),
                |v: (u64, int)| r == Ok::<u64, FstError>(v.0) && final(self).pos() == v.1),
    {
        let ghost data = self.data();
        let ghost goal = get_from(data, self.pos(), key@);
        let mut state = State::new(0, 0);
        state.target = self.reader.get_position() as u64;
        let mut out: u64 = 0;
        let mut j: usize = 0;
        while j < key.len()
            invariant
                self.data() == data,
                data == old(self).data(),
                goal == get_from(old(self).data(), old(self).pos(), key@),
                0 <= j <= key.len(),
                get_walk(data, state, self.pos(), key@, j as int, out) == goal,
                !(goal is Crash),
            decreases key.len() - j,
        {
            if state.target == 0 {
                // the arc leads to no node, so no further byte can follow
                return Err(FstError::NotFound);
            }
            self.find_target_state(key[j], &mut state)?;
            out += state.out;
            j += 1;
        }
        if !state.is_final() {
            return Err(FstError::NotFound);
        }
        out += state.final_out;
        Ok(out)
    }

    /// Reads the first arc below `follow` into `state` (see `read_first_target`).
    pub fn read_first_target_state(&mut self, follow: &State, state: &mut State) -> (r: FstResult<()>)
        requires
            !(read_first_target(old(self).data(), *follow, *old(state), old(self).pos()) is Crash),
        ensures
            final(self).data() == old(self).data(),
            reports(r, read_first_target(old(self).data(), *follow, *old(state), old(self).pos()),
                |v: (State, int)| *final(state) == v.0 && final(self).pos() == v.1),
    {
        if follow.is_final() {
            state._in = END_LABEL;
            state.out = follow.final_out;
            state.flag = BIT_FINAL_STATE;
            if follow.target <= 0 {
                state.flag |= BIT_LAST_STATE;
            } else {
                state.next_state = follow.target;
            }
            state.target = FINAL_END_NODE;
        } else {
            self.read_next_state_from_follow(follow, state)?;
        }
        Ok(())
    }

    /// Reads the first arc of the node that `follow` points to into `state`.
    pub fn read_next_state_from_follow(&mut self, follow: &State, state: &mut State) -> (r: FstResult<()>)
        requires
            !(read_from_follow(old(self).data(), *follow, old(self).pos()) is Crash),
        ensures
            final(self).data() == old(self).data(),
            reports(r, read_from_follow(old(self).data(), *follow, old(self).pos()),
                |v: (State, int)| *final(state) == v.0 && final(self).pos() == v.1),
    {
        self.read_next_state(follow.target, state)?;
        if state.flag(ARCS_AS_FIXED_ARRAY) {
            let num_states = state.final_out as usize;
            self.reader.skip_bytes(num_states * 5);
            self.read_state(state)?;
        }
        Ok(())
    }
}

} // verus!
