use vstd::prelude::*;
use crate::model::{
    zeros, scratch, pass, rounds, compress, checksum_prefix, checksum_update, absorb,
    lemma_absorb_step, lemma_absorb_append, lemma_absorb_prefix, md2, pad, pad_len,
    buffer_after,
};
use crate::table::substitute;
use crate::hex::{hex, to_hex, lemma_hex_len};

verus! {

/// A streaming MD2 digest engine.
#[derive(Clone, Copy)]
pub struct MD2 {
    /// The chaining state; after finalization it is the digest.
    state: [u8; 16],
    /// The running checksum, folded in as the last block.
    checksum: [u8; 16],
    /// Input bytes not yet forming a complete block.
    buffer: [u8; 16],
    /// Number of valid bytes at the front of `buffer`.
    count: usize,
    /// Every byte absorbed so far.
    absorbed: Ghost<Seq<u8>>,
}

impl View for MD2 {
    type V = Seq<u8>;

    /// The message absorbed so far.
    closed spec fn view(&self) -> Seq<u8> {
        self.absorbed@
    }
}

impl MD2 {
    /// The engine's fields agree with the bytes it has absorbed.
    pub closed spec fn wf(&self) -> bool {
        &&& self.count < 16
        &&& self.absorbed@.len() % 16 == self.count
        &&& self.buffer@.subrange(0, self.count as int) == self.absorbed@.subrange(
            self.absorbed@.len() - self.count,
            self.absorbed@.len() as int,
        )
        &&& self.chained()
    }

    /// The chaining state.
    pub closed spec fn state_bytes(&self) -> Seq<u8> {
        self.state@
    }

    /// The running checksum.
    pub closed spec fn checksum_bytes(&self) -> Seq<u8> {
        self.checksum@
    }

    /// All 16 bytes of the buffer, the valid ones and the stale ones after them.
    pub closed spec fn buffer_bytes(&self) -> Seq<u8> {
        self.buffer@
    }

    /// The number of valid bytes at the front of the buffer.
    pub closed spec fn buffered(&self) -> nat {
        self.count as nat
    }

    /// What a well-formed engine holds: the bytes absorbed beyond the last whole block wait
    /// at the front of the buffer, and the state and the checksum are those of the whole
    /// blocks absorbed.
    pub proof fn lemma_fields(&self)
        requires
            self.wf(),
        ensures
            self.buffered() == self@.len() % 16,
            self.buffer_bytes().len() == 16,
            self.buffer_bytes().subrange(0, self.buffered() as int) == self@.subrange(
                self@.len() - self.buffered(),
                self@.len() as int,
            ),
            (self.state_bytes(), self.checksum_bytes()) == absorb(self@, self@.len() / 16),
    {
    }

    /// Two well-formed engines that absorbed the same bytes and hold the same buffer bytes
    /// are equal in every field.
    pub proof fn lemma_equal(&self, other: &MD2)
        requires
            self.wf(),
            other.wf(),
            self@ == other@,
            self.buffer_bytes() == other.buffer_bytes(),
        ensures
            *self == *other,
    {
        assert(self.state =~= other.state);
        assert(self.checksum =~= other.checksum);
        assert(self.buffer =~= other.buffer);
    }

    /// Creates a new engine that has absorbed nothing, with all bytes zero.
    pub fn new() -> (r: Self)
        ensures
            r.wf(),
            r@ == Seq::<u8>::empty(),
            r.state_bytes() == zeros(),
            r.checksum_bytes() == zeros(),
            r.buffer_bytes() == zeros(),
            r.buffered() == 0,
    {
        let r = MD2 {
            state: [0u8; 16],
            checksum: [0u8; 16],
            buffer: [0u8; 16],
            count: 0,
            absorbed: Ghost(Seq::empty()),
        };
        assert(r.state@ =~= zeros());
        assert(r.checksum@ =~= zeros());
        assert(r.buffer@ =~= zeros());
        assert(r.buffer@.subrange(0, 0) =~= r@.subrange(0, 0));
        r
    }

    /// Creates a new engine that has absorbed `input`: the engine of `new` after one `update`.
    pub fn with_input(input: &[u8]) -> (r: Self)
        ensures
            r.wf(),
            r@ == input@,
            r.buffer_bytes() == buffer_after(zeros(), 0, input@),
    {
        let mut initial = Self::new();
        initial.update(input);
        assert(Seq::<u8>::empty() + input@ =~= input@);
        initial
    }

    /// Consumes the engine and returns the digest of the message it has absorbed: the
    /// buffered bytes are padded to a full block and compressed, then the checksum is
    /// compressed as the last block.
    pub fn finalize(self) -> (r: [u8; 16])
        requires
            self.wf(),
        ensures
            r@ == md2(self@),
            r@.len() == 16,
    {
        let mut e = self;
        let ghost m = self@;
        let count: usize = e.count;
        let padding: u8 = (16 - count) as u8;
        for i in count..16
            invariant
                count == e.count,
                count < 16,
                padding == 16 - count,
                forall|k: int| 0 <= k < count ==> e.buffer@[k] == self.buffer@[k],
                forall|k: int| count <= k < i ==> e.buffer@[k] == padding,
                e.state == self.state,
                e.checksum == self.checksum,
                e.absorbed == self.absorbed,
        {
            e.buffer[i] = padding;
        }
        let block = e.buffer;
        proof {
            let n = m.len() / 16;
            let head = m.subrange(0, 16 * n as int);
            let p = pad_len(m.len());
            assert(p == padding);
            assert forall|k: int| 0 <= k < count implies #[trigger] block@[k] == m[16 * n + k] by {
                assert(self.buffer@.subrange(0, count as int)[k] == self.buffer@[k]);
            }
            assert(pad(m) =~= head + block@);
            assert(head.subrange(0, 16 * n as int) =~= head);
            assert(m.subrange(0, 16 * n as int) =~= head);
            lemma_absorb_prefix(m, head, n);
            lemma_absorb_step(head, block@);
            assert(pad(m).len() / 16 == n + 1);
            assert(block@.subrange(0, 16) =~= block@);
        }
        e.process_block(&block, 0);
        let sum = e.checksum;
        e.process_block(&sum, 0);
        assert(sum@.subrange(0, 16) =~= sum@);
        e.state
    }

    /// The digest of the message absorbed so far, as 32 lowercase hexadecimal digits. The
    /// engine itself is left as it is and can go on absorbing.
    pub fn to_string(&self) -> (r: String)
        requires
            self.wf(),
        ensures
            r@ == hex(md2(self@)),
            r@.len() == 32,
    {
        let copy: MD2 = *self;
        let digest = copy.finalize();
        proof {
            lemma_hex_len(digest@);
        }
        to_hex(&digest)
    }

    /// Absorbs `input`, as the continuation of the message absorbed so far. Full blocks are
    /// compressed at once; up to 15 trailing bytes wait in the buffer for the next call.
    pub fn update(&mut self, input: &[u8])
        requires
            old(self).wf(),
        ensures
            final(self).wf(),
            final(self)@ == old(self)@ + input@,
            final(self).buffer_bytes() == buffer_after(
                old(self).buffer_bytes(),
                old(self).buffered(),
                input@,
            ),
            input@.len() == 0 ==> *final(self) == *old(self),
    {
        let ghost m0 = self@;
        let ghost c0 = self.count as nat;
        let ghost b0 = self.buffer@;
        let len: usize = input.len();
        let room: usize = 16 - self.count;
        let available: usize = if len < room { len } else { room };
        self.fill(input, available);
        let ghost filled = self.buffer@;
        if self.count < 16 {
            assert(input@.subrange(0, available as int) =~= input@);
            assert(filled =~= buffer_after(b0, c0, input@));
            return;
        }
        self.flush();
        let mut offset: usize = available;
        let mut remaining: usize = len - available;
        while remaining >= 16
            invariant
                len == input@.len(),
                offset + remaining == len,
                self.count == 0,
                self.absorbed@ == m0 + input@.subrange(0, offset as int),
                self.absorbed@.len() % 16 == 0,
                self.chained(),
                self.buffer@ == filled,
            decreases remaining,
        {
            let ghost before = self.absorbed@;
            let ghost blk = input@.subrange(offset as int, offset + 16);
            self.process_block(input, offset);
            proof {
                lemma_absorb_step(before, blk);
                assert(m0 + input@.subrange(0, offset + 16) =~= before + blk);
            }
            self.absorbed = Ghost(before + blk);
            remaining = remaining - 16;
            offset = offset + 16;
        }
        self.stash(input, offset);
        assert(m0 + input@.subrange(0, offset as int) + input@.subrange(offset as int, len as int)
            =~= m0 + input@);
        assert(self.count == (c0 + len) % 16);
        assert(self.buffer@ =~= buffer_after(b0, c0, input@));
    }

    /// The state and the checksum are those of the whole blocks absorbed.
    closed spec fn chained(&self) -> bool {
        (self.state@, self.checksum@) == absorb(self.absorbed@, self.absorbed@.len() / 16)
    }

    /// Appends `input[..available]` to the buffered bytes.
    fn fill(&mut self, input: &[u8], available: usize)
        requires
            old(self).wf(),
            old(self).count + available <= 16,
            available <= input@.len(),
        ensures
            final(self).count == old(self).count + available,
            final(self)@ == old(self)@ + input@.subrange(0, available as int),
            final(self).state == old(self).state,
            final(self).checksum == old(self).checksum,
            final(self).buffer@ == Seq::new(
                16,
                |k: int|
                    if old(self).count <= k < old(self).count + available {
                        input@[k - old(self).count]
                    } else {
                        old(self).buffer@[k]
                    },
            ),
            available == 0 ==> *final(self) == *old(self),
            final(self).count < 16 ==> final(self).wf(),
            final(self).count == 16 ==> {
                &&& final(self)@.len() >= 16
                &&& final(self)@.len() % 16 == 0
                &&& final(self).buffer@ == final(self)@.subrange(
                    final(self)@.len() - 16,
                    final(self)@.len() as int,
                )
                &&& (final(self).state@, final(self).checksum@) == absorb(
                    final(self)@,
                    (final(self)@.len() / 16 - 1) as nat,
                )
            },
    {
        let ghost m0 = self@;
        let start: usize = self.count;
        proof {
            assert forall|m: int| 0 <= m < start implies #[trigger] self.buffer@[m] == m0[m0.len()
                - start + m] by {
                assert(self.buffer@.subrange(0, start as int)[m] == self.buffer@[m]);
            }
        }
        for i in 0..available
            invariant
                available <= input@.len(),
                start == self.count,
                start + available <= 16,
                forall|m: int| 0 <= m < start ==> self.buffer@[m] == m0[m0.len() - start + m],
                forall|m: int| 0 <= m < i ==> self.buffer@[start + m] == input@[m],
                forall|m: int|
                    0 <= m < 16 && !(start <= m < start + i) ==> self.buffer@[m]
                        == old(self).buffer@[m],
                self.state == old(self).state,
                self.checksum == old(self).checksum,
                self.absorbed == old(self).absorbed,
        {
            self.buffer[start + i] = input[i];
        }
        self.count = start + available;
        self.absorbed = Ghost(m0 + input@.subrange(0, available as int));
        assert(self.buffer@.subrange(0, self.count as int) =~= self.absorbed@.subrange(
            self.absorbed@.len() - self.count,
            self.absorbed@.len() as int,
        ));
        proof {
            lemma_absorb_append(m0, input@.subrange(0, available as int));
            if available == 0 {
                assert(self.buffer =~= old(self).buffer);
                assert(self.absorbed@ =~= old(self).absorbed@);
            }
            if self.count == 16 {
                assert(self.buffer@.subrange(0, 16) =~= self.buffer@);
                assert(self@.len() / 16 - 1 == m0.len() / 16);
            }
        }
    }

    /// Compresses a full buffer, after which the buffer is empty.
    fn flush(&mut self)
        requires
            old(self).count == 16,
            old(self)@.len() >= 16,
            old(self)@.len() % 16 == 0,
            old(self).buffer@ == old(self)@.subrange(old(self)@.len() - 16, old(self)@.len() as int),
            (old(self).state@, old(self).checksum@) == absorb(old(self)@, (old(self)@.len() / 16 - 1) as nat),
        ensures
            final(self).wf(),
            final(self).count == 0,
            final(self)@ == old(self)@,
            final(self).buffer == old(self).buffer,
    {
        let block = self.buffer;
        proof {
            let all = self.absorbed@;
            let head = all.subrange(0, all.len() - 16);
            let n = head.len() / 16;
            assert(head.subrange(0, 16 * n as int) =~= all.subrange(0, 16 * n as int));
            lemma_absorb_prefix(head, all, n);
            assert(all =~= head + block@);
            lemma_absorb_step(head, block@);
        }
        self.process_block(&block, 0);
        assert(block@.subrange(0, 16) =~= block@);
        self.count = 0;
        assert(self.buffer@.subrange(0, 0) =~= self@.subrange(self@.len() as int, self@.len() as int));
    }

    /// Keeps `input[offset..]`, fewer than 16 bytes, as the buffered bytes.
    fn stash(&mut self, input: &[u8], offset: usize)
        requires
            old(self).count == 0,
            old(self)@.len() % 16 == 0,
            old(self).chained(),
            offset <= input@.len() < offset + 16,
        ensures
            final(self).wf(),
            final(self)@ == old(self)@ + input@.subrange(offset as int, input@.len() as int),
            final(self).count == input@.len() - offset,
            final(self).buffer@ == Seq::new(
                16,
                |k: int|
                    if k < input@.len() - offset {
                        input@[offset + k]
                    } else {
                        old(self).buffer@[k]
                    },
            ),
    {
        let len: usize = input.len();
        let remaining: usize = len - offset;
        for i in 0..remaining
            invariant
                len == input@.len(),
                offset + remaining == len,
                remaining < 16,
                forall|m: int| 0 <= m < i ==> self.buffer@[m] == input@[offset + m],
                forall|m: int| i <= m < 16 ==> self.buffer@[m] == old(self).buffer@[m],
                self.count == old(self).count,
                self.state == old(self).state,
                self.checksum == old(self).checksum,
                self.absorbed == old(self).absorbed,
        {
            self.buffer[i] = input[offset + i];
        }
        proof {
            let before = self.absorbed@;
            let after = before + input@.subrange(offset as int, len as int);
            assert(after.len() / 16 == before.len() / 16);
            lemma_absorb_append(before, input@.subrange(offset as int, len as int));
            assert(self.buffer@.subrange(0, remaining as int) =~= after.subrange(
                after.len() - remaining,
                after.len() as int,
            ));
        }
        self.count = remaining;
        self.absorbed = Ghost(self.absorbed@ + input@.subrange(offset as int, len as int));
        assert(self.buffer@ =~= Seq::new(
            16,
            |k: int|
                if k < len - offset {
                    input@[offset + k]
                } else {
                    old(self).buffer@[k]
                },
        ));
    }
}

impl Default for MD2 {
    /// An engine that has absorbed nothing, with all bytes zero, as `new` gives.
    fn default() -> (r: Self)
        ensures
            r.wf(),
            r@ == Seq::<u8>::empty(),
            r.state_bytes() == zeros(),
            r.checksum_bytes() == zeros(),
            r.buffer_bytes() == zeros(),
            r.buffered() == 0,
    {
        Self::new()
    }
}

impl MD2 {
    /// Compresses the block `input[off..off + 16]` into the state and folds it into the
    /// checksum; the buffer, the count and the absorbed message are left as they are.
    fn process_block(&mut self, input: &[u8], off: usize)
        requires
            off + 16 <= input@.len(),
        ensures
            final(self).state@ == compress(old(self).state@, input@.subrange(off as int, off + 16)),
            final(self).checksum@ == checksum_update(
                old(self).checksum@,
                input@.subrange(off as int, off + 16),
            ),
            final(self).buffer == old(self).buffer,
            final(self).count == old(self).count,
            final(self).absorbed == old(self).absorbed,
    {
        let len: usize = input.len();
        let ghost blk = input@.subrange(off as int, off + 16);
        let ghost s0 = self.state@;
        let ghost c0 = self.checksum@;
        let mut x = [0u8; 48];
        for i in 0..16
            invariant
                len == input@.len(),
                off + 16 <= input@.len(),
                blk == input@.subrange(off as int, off + 16),
                s0 == self.state@,
                forall|m: int| 0 <= m < i ==> x@[m] == s0[m],
                forall|m: int| 0 <= m < i ==> x@[16 + m] == blk[m],
                forall|m: int| 0 <= m < i ==> x@[32 + m] == s0[m] ^ blk[m],
        {
            x[i] = self.state[i];
            x[16 + i] = input[off + i];
            x[32 + i] = self.state[i] ^ input[off + i];
        }
        let ghost x0 = scratch(s0, blk);
        assert(x@ =~= x0);
        let mut t: u8 = 0;
        for j in 0..18
            invariant
                (x@, t) == rounds(x0, j as nat),
        {
            let ghost y = x@;
            let ghost t0 = t;
            for k in 0..48
                invariant
                    (x@, t) == pass(y, t0, k as nat),
                    x@.len() == 48,
            {
                x[k] = x[k] ^ substitute(t);
                t = x[k];
            }
            t = ((t as usize + j) % 256) as u8;
        }
        for i in 0..16
            invariant
                forall|m: int| 0 <= m < i ==> self.state@[m] == x@[m],
                self.checksum@ == c0,
                self.buffer == old(self).buffer,
                self.count == old(self).count,
                self.absorbed == old(self).absorbed,
        {
            self.state[i] = x[i];
        }
        assert(self.state@ =~= rounds(x0, 18).0.subrange(0, 16));
        let mut l = self.checksum[15];
        for j in 0..16
            invariant
                len == input@.len(),
                off + 16 <= input@.len(),
                blk == input@.subrange(off as int, off + 16),
                self.checksum@ == checksum_prefix(c0, blk, j as nat),
                l == (if j == 0 { c0[15] } else { self.checksum@[j - 1] }),
                self.state@ == compress(s0, blk),
                self.buffer == old(self).buffer,
                self.count == old(self).count,
                self.absorbed == old(self).absorbed,
        {
            self.checksum[j] = self.checksum[j] ^ substitute(input[off + j] ^ l);
            l = self.checksum[j];
        }
    }
}

} // verus!
