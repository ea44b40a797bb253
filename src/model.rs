use vstd::prelude::*;
use crate::table::sbox;

verus! {

/// Sixteen zero bytes: the initial state and checksum.
pub open spec fn zeros() -> Seq<u8> {
    Seq::new(16, |i: int| 0u8)
}

/// The 48-byte scratch array of a compression step: the state, the block, and their
/// byte-wise XOR.
pub open spec fn scratch(state: Seq<u8>, block: Seq<u8>) -> Seq<u8> {
    state + block + Seq::new(16, |i: int| state[i] ^ block[i])
}

/// The first `k` steps of one pass over the scratch array `x`, entered with feedback byte `t`:
/// each step XORs the substitution of the feedback into the next byte, and that byte becomes
/// the new feedback. Gives the array and the feedback after those steps.
pub open spec fn pass(x: Seq<u8>, t: u8, k: nat) -> (Seq<u8>, u8)
    decreases k,
{
    if k == 0 {
        (x, t)
    } else {
        let (y, u) = pass(x, t, (k - 1) as nat);
        let v = y[k - 1] ^ sbox(u);
        (y.update(k - 1, v), v)
    }
}

/// The first `j` rounds of the scrambling transform on `x`, starting with feedback zero.
/// Round `j` is a full pass of 48 steps, after which `j` is added to the feedback modulo 256.
pub open spec fn rounds(x: Seq<u8>, j: nat) -> (Seq<u8>, u8)
    decreases j,
{
    if j == 0 {
        (x, 0u8)
    } else {
        let (y, t) = rounds(x, (j - 1) as nat);
        let (z, u) = pass(y, t, 48);
        (z, ((u + (j - 1)) % 256) as u8)
    }
}

/// The new state after compressing `block` into `state`: the first 16 bytes of the scratch
/// array after 18 rounds.
pub open spec fn compress(state: Seq<u8>, block: Seq<u8>) -> Seq<u8> {
    rounds(scratch(state, block), 18).0.subrange(0, 16)
}

/// The checksum `c` with its first `j` bytes updated for `block`: byte `i` is XORed with
/// the substitution of `block[i]` XOR the previous checksum byte, which is the just-updated
/// byte `i - 1`, or for `i == 0` the old last byte.
pub open spec fn checksum_prefix(c: Seq<u8>, block: Seq<u8>, j: nat) -> Seq<u8>
    decreases j,
{
    if j == 0 {
        c
    } else {
        let d = checksum_prefix(c, block, (j - 1) as nat);
        let l = if j == 1 { c[15] } else { d[j - 2] };
        d.update(j - 1, d[j - 1] ^ sbox(block[j - 1] ^ l))
    }
}

/// The checksum after absorbing `block`.
pub open spec fn checksum_update(c: Seq<u8>, block: Seq<u8>) -> Seq<u8> {
    checksum_prefix(c, block, 16)
}

/// Block `i` of `msg`: its bytes `16 * i .. 16 * i + 16`.
pub open spec fn block(msg: Seq<u8>, i: nat) -> Seq<u8> {
    msg.subrange(16 * i as int, 16 * i as int + 16)
}

/// State and checksum after absorbing the first `n` blocks of `msg`.
pub open spec fn absorb(msg: Seq<u8>, n: nat) -> (Seq<u8>, Seq<u8>)
    decreases n,
{
    if n == 0 {
        (zeros(), zeros())
    } else {
        let (s, c) = absorb(msg, (n - 1) as nat);
        let b = block(msg, (n - 1) as nat);
        (compress(s, b), checksum_update(c, b))
    }
}

/// The number of padding bytes appended to a message of `len` bytes: between 1 and 16.
pub open spec fn pad_len(len: nat) -> nat {
    (16 - len % 16) as nat
}

/// `msg` padded to a whole number of blocks: `p` bytes of value `p` are appended.
pub open spec fn pad(msg: Seq<u8>) -> Seq<u8> {
    let p = pad_len(msg.len());
    msg + Seq::new(p, |i: int| p as u8)
}

/// The MD2 digest of `msg`: the padded message is absorbed block by block, then the checksum
/// is compressed into the state as one more block.
pub open spec fn md2(msg: Seq<u8>) -> Seq<u8> {
    let m = pad(msg);
    let (s, c) = absorb(m, m.len() / 16);
    compress(s, c)
}

/// The 16 buffer bytes after an update with `input` of an engine that held `buf`, with its
/// first `count` bytes valid. The input first fills the buffer from position `count`; once the
/// buffer is full, the input's last `(count + |input|) % 16` bytes go to its front, and the
/// bytes after them stay as the filled buffer had them.
pub open spec fn buffer_after(buf: Seq<u8>, count: nat, input: Seq<u8>) -> Seq<u8> {
    let len = input.len();
    let available = if len < 16 - count { len } else { (16 - count) as nat };
    let filled = Seq::new(
        16,
        |k: int|
            if count <= k < count + available {
                input[k - count]
            } else {
                buf[k]
            },
    );
    if count + len < 16 {
        filled
    } else {
        let rest = (count + len) % 16;
        Seq::new(
            16,
            |k: int|
                if k < rest {
                    input[len - rest + k]
                } else {
                    filled[k]
                },
        )
    }
}

/// The first `k` steps of a pass keep the length of the scratch array.
pub proof fn lemma_pass_len(x: Seq<u8>, t: u8, k: nat)
    requires
        k <= x.len(),
    ensures
        pass(x, t, k).0.len() == x.len(),
    decreases k,
{
    if k > 0 {
        lemma_pass_len(x, t, (k - 1) as nat);
    }
}

/// Rounds keep the length of the 48-byte scratch array.
pub proof fn lemma_rounds_len(x: Seq<u8>, j: nat)
    requires
        x.len() == 48,
    ensures
        rounds(x, j).0.len() == 48,
    decreases j,
{
    if j > 0 {
        lemma_rounds_len(x, (j - 1) as nat);
        lemma_pass_len(rounds(x, (j - 1) as nat).0, rounds(x, (j - 1) as nat).1, 48);
    }
}

/// A compression step gives 16 bytes.
pub proof fn lemma_compress_len(state: Seq<u8>, block: Seq<u8>)
    requires
        state.len() == 16,
        block.len() == 16,
    ensures
        compress(state, block).len() == 16,
{
    lemma_rounds_len(scratch(state, block), 18);
}

/// State and checksum stay 16 bytes long.
pub proof fn lemma_absorb_len(msg: Seq<u8>, n: nat)
    requires
        16 * n <= msg.len(),
    ensures
        absorb(msg, n).0.len() == 16,
        absorb(msg, n).1.len() == 16,
    decreases n,
{
    if n > 0 {
        lemma_absorb_len(msg, (n - 1) as nat);
        lemma_compress_len(absorb(msg, (n - 1) as nat).0, block(msg, (n - 1) as nat));
        lemma_checksum_prefix_len(absorb(msg, (n - 1) as nat).1, block(msg, (n - 1) as nat), 16);
    }
}

/// Updating a prefix of the checksum keeps its length.
pub proof fn lemma_checksum_prefix_len(c: Seq<u8>, b: Seq<u8>, j: nat)
    requires
        j <= c.len(),
    ensures
        checksum_prefix(c, b, j).len() == c.len(),
    decreases j,
{
    if j > 0 {
        lemma_checksum_prefix_len(c, b, (j - 1) as nat);
    }
}

/// Absorbing the first `n` blocks reads nothing beyond them.
pub proof fn lemma_absorb_prefix(a: Seq<u8>, b: Seq<u8>, n: nat)
    requires
        16 * n <= a.len(),
        16 * n <= b.len(),
        a.subrange(0, 16 * n as int) == b.subrange(0, 16 * n as int),
    ensures
        absorb(a, n) == absorb(b, n),
    decreases n,
{
    if n > 0 {
        let k = (n - 1) as nat;
        assert(a.subrange(0, 16 * k as int) =~= a.subrange(0, 16 * n as int).subrange(0, 16 * k as int));
        assert(b.subrange(0, 16 * k as int) =~= b.subrange(0, 16 * n as int).subrange(0, 16 * k as int));
        lemma_absorb_prefix(a, b, k);
        assert(block(a, k) =~= a.subrange(0, 16 * n as int).subrange(16 * k as int, 16 * n as int));
        assert(block(b, k) =~= b.subrange(0, 16 * n as int).subrange(16 * k as int, 16 * n as int));
    }
}

/// Appending bytes to a message leaves the absorption of its whole blocks as it was.
pub proof fn lemma_absorb_append(a: Seq<u8>, e: Seq<u8>)
    ensures
        absorb(a + e, a.len() / 16) == absorb(a, a.len() / 16),
{
    let n = a.len() / 16;
    assert((a + e).subrange(0, 16 * n as int) =~= a.subrange(0, 16 * n as int));
    lemma_absorb_prefix(a + e, a, n);
}

/// Appending one block to a message of whole blocks absorbs exactly that block.
pub proof fn lemma_absorb_step(m: Seq<u8>, b: Seq<u8>)
    requires
        m.len() % 16 == 0,
        b.len() == 16,
    ensures
        ({
            let (s, c) = absorb(m, m.len() / 16);
            absorb(m + b, m.len() / 16 + 1) == (compress(s, b), checksum_update(c, b))
        }),
{
    let n = m.len() / 16;
    let mb = m + b;
    assert(mb.subrange(0, 16 * n as int) =~= m.subrange(0, 16 * n as int));
    lemma_absorb_prefix(m, mb, n);
    assert(block(mb, n) =~= b);
}

} // verus!
