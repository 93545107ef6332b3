//! SHA-1 (FIPS 180-4), streaming and in one call.

use vstd::prelude::*;
use crate::be::{be, be_u32, lemma_to_be_len, push_be_u32, push_be_u64, to_be};

verus! {

/// A message of this length or longer has no 64-bit bit count.
pub const MAX_LEN: u64 = 0x2000_0000_0000_0000;

/// The chaining value between blocks.
#[derive(Clone, Copy)]
pub struct Chain {
    pub a: u32,
    pub b: u32,
    pub c: u32,
    pub d: u32,
    pub e: u32,
}

/// `x` rotated left by `n` bits.
pub open spec fn rotl(x: u32, n: u32) -> u32 {
    (x << n) | (x >> ((32 - n) as u32))
}

fn rotate(x: u32, n: u32) -> (r: u32)
    requires
        0 < n < 32,
    ensures
        r == rotl(x, n),
{
    (x << n) | (x >> (32 - n))
}

/// The chaining value that every message starts from.
pub open spec fn initial() -> Chain {
    Chain { a: 0x67452301, b: 0xEFCDAB89, c: 0x98BADCFE, d: 0x10325476, e: 0xC3D2E1F0 }
}

/// Word `t` of the message schedule of `block`.
pub open spec fn word(block: Seq<u8>, t: nat) -> u32
    decreases t,
{
    if t < 16 {
        be(block.subrange(4 * t as int, (4 * t + 4) as int)) as u32
    } else {
        rotl(
            word(block, (t - 3) as nat) ^ word(block, (t - 8) as nat) ^ word(
                block,
                (t - 14) as nat,
            ) ^ word(block, (t - 16) as nat),
            1,
        )
    }
}

/// The logical function of round `t`.
pub open spec fn mix(t: nat, b: u32, c: u32, d: u32) -> u32 {
    if t < 20 {
        (b & c) | ((!b) & d)
    } else if t < 40 {
        b ^ c ^ d
    } else if t < 60 {
        (b & c) | (b & d) | (c & d)
    } else {
        b ^ c ^ d
    }
}

/// The constant of round `t`.
pub open spec fn constant(t: nat) -> u32 {
    if t < 20 {
        0x5A827999
    } else if t < 40 {
        0x6ED9EBA1
    } else if t < 60 {
        0x8F1BBCDC
    } else {
        0xCA62C1D6
    }
}

/// One round.
pub open spec fn round(s: Chain, t: nat, w: u32) -> Chain {
    Chain {
        a: rotl(s.a, 5).wrapping_add(mix(t, s.b, s.c, s.d)).wrapping_add(s.e).wrapping_add(
            constant(t),
        ).wrapping_add(w),
        b: s.a,
        c: rotl(s.b, 30),
        d: s.c,
        e: s.d,
    }
}

/// `s` after the first `t` rounds on `block`.
pub open spec fn rounds(s: Chain, block: Seq<u8>, t: nat) -> Chain
    decreases t,
{
    if t == 0 {
        s
    } else {
        round(rounds(s, block, (t - 1) as nat), (t - 1) as nat, word(block, (t - 1) as nat))
    }
}

/// The chaining value after `block`.
pub open spec fn compress(s: Chain, block: Seq<u8>) -> Chain {
    let r = rounds(s, block, 80);
    Chain {
        a: s.a.wrapping_add(r.a),
        b: s.b.wrapping_add(r.b),
        c: s.c.wrapping_add(r.c),
        d: s.d.wrapping_add(r.d),
        e: s.e.wrapping_add(r.e),
    }
}

/// The chaining value after the first `n` 64-byte blocks of `msg`.
pub open spec fn absorb(msg: Seq<u8>, n: nat) -> Chain
    decreases n,
{
    if n == 0 {
        initial()
    } else {
        compress(absorb(msg, (n - 1) as nat), msg.subrange(64 * (n - 1), 64 * n as int))
    }
}

/// How many zero bytes padding puts behind the `0x80` of a message of `len` bytes.
pub open spec fn zeros(len: nat) -> nat {
    ((119 - len % 64) % 64) as nat
}

/// `msg` padded to whole blocks.
pub open spec fn pad(msg: Seq<u8>) -> Seq<u8> {
    msg + seq![0x80u8] + Seq::new(zeros(msg.len()), |i: int| 0u8) + to_be(8 * msg.len(), 8)
}

/// The bytes of a chaining value.
pub open spec fn chain_bytes(s: Chain) -> Seq<u8> {
    to_be(s.a as nat, 4) + to_be(s.b as nat, 4) + to_be(s.c as nat, 4) + to_be(s.d as nat, 4)
        + to_be(s.e as nat, 4)
}

/// The SHA-1 digest of `msg`.
pub open spec fn digest(msg: Seq<u8>) -> Seq<u8> {
    chain_bytes(absorb(pad(msg), pad(msg).len() / 64))
}

/// A message's padded form is whole blocks.
pub proof fn lemma_pad_len(msg: Seq<u8>)
    ensures
        pad(msg).len() == msg.len() + 9 + zeros(msg.len()),
        pad(msg).len() % 64 == 0,
{
    lemma_to_be_len(8 * msg.len(), 8);
}

/// A digest has 20 bytes.
pub proof fn lemma_digest_len(msg: Seq<u8>)
    ensures
        digest(msg).len() == 20,
{
    let s = absorb(pad(msg), pad(msg).len() / 64);
    lemma_to_be_len(s.a as nat, 4);
    lemma_to_be_len(s.b as nat, 4);
    lemma_to_be_len(s.c as nat, 4);
    lemma_to_be_len(s.d as nat, 4);
    lemma_to_be_len(s.e as nat, 4);
}

/// The constants and functions are those of FIPS 180-4.
pub proof fn lemma_fips(t: nat, x: u32, y: u32, z: u32)
    ensures
        initial() == (Chain {
            a: 1732584193,
            b: 4023233417,
            c: 2562383102,
            d: 271733878,
            e: 3285377520,
        }),
        t < 20 ==> constant(t) == 1518500249 && mix(t, x, y, z) == z ^ (x & (y ^ z)),
        20 <= t < 40 ==> constant(t) == 1859775393 && mix(t, x, y, z) == x ^ y ^ z,
        40 <= t < 60 ==> constant(t) == 2400959708 && mix(t, x, y, z) == (x & y) ^ (x & z) ^ (y
            & z),
        60 <= t < 80 ==> constant(t) == 3395469782 && mix(t, x, y, z) == x ^ y ^ z,
{
    assert((x & y) | ((!x) & z) == z ^ (x & (y ^ z))) by (bit_vector);
    assert((x & y) | (x & z) | (y & z) == (x & y) ^ (x & z) ^ (y & z)) by (bit_vector);
}

/// A rotation moves the bits that leave at the top to the bottom.
pub proof fn lemma_rotations(x: u32)
    ensures
        rotl(x, 1) == (x % 0x8000_0000) * 2 + x / 0x8000_0000,
        rotl(x, 5) == (x % 0x800_0000) * 32 + x / 0x800_0000,
        rotl(x, 30) == (x % 4) * 0x4000_0000 + x / 4,
{
    assert((x << 1u32) | (x >> 31u32) == (x % 0x8000_0000) * 2 + x / 0x8000_0000) by (bit_vector);
    assert((x << 5u32) | (x >> 27u32) == (x % 0x800_0000) * 32 + x / 0x800_0000) by (bit_vector);
    assert((x << 30u32) | (x >> 2u32) == (x % 4) * 0x4000_0000 + x / 4) by (bit_vector);
}

/// The schedule: sixteen words of the block, and each word behind them one rotation of four
/// before it.
pub proof fn lemma_schedule(block: Seq<u8>, t: nat)
    ensures
        t < 16 ==> word(block, t) == be(block.subrange(4 * t as int, 4 * t as int + 4)) as u32,
        t >= 16 ==> word(block, t) == rotl(
            word(block, (t - 16) as nat) ^ word(block, (t - 14) as nat) ^ word(
                block,
                (t - 8) as nat,
            ) ^ word(block, (t - 3) as nat),
            1,
        ),
{
    if t >= 16 {
        let a = word(block, (t - 3) as nat);
        let b = word(block, (t - 8) as nat);
        let c = word(block, (t - 14) as nat);
        let d = word(block, (t - 16) as nat);
        assert(a ^ b ^ c ^ d == d ^ c ^ b ^ a) by (bit_vector);
    }
}

/// A round shifts the five values by one place, and the first is a sum of all that goes in.
pub proof fn lemma_round(s: Chain, t: nat, w: u32)
    ensures
        ({
            let r = round(s, t, w);
            &&& r.b == s.a
            &&& r.c == rotl(s.b, 30)
            &&& r.d == s.c
            &&& r.e == s.d
            &&& r.a == (rotl(s.a, 5) + mix(t, s.b, s.c, s.d) + s.e + constant(t) + w)
                % 0x1_0000_0000
        }),
{
}

/// Eighty rounds make a block, whose outcome is added to what was before it, in five sums of
/// 32 bits; blocks follow one another; and the digest is the five values at the end.
pub proof fn lemma_blocks(s: Chain, block: Seq<u8>, t: nat, msg: Seq<u8>, n: nat)
    ensures
        rounds(s, block, 0) == s,
        rounds(s, block, t + 1) == round(rounds(s, block, t), t, word(block, t)),
        compress(s, block).a == (s.a + rounds(s, block, 80).a) % 0x1_0000_0000,
        compress(s, block).b == (s.b + rounds(s, block, 80).b) % 0x1_0000_0000,
        compress(s, block).c == (s.c + rounds(s, block, 80).c) % 0x1_0000_0000,
        compress(s, block).d == (s.d + rounds(s, block, 80).d) % 0x1_0000_0000,
        compress(s, block).e == (s.e + rounds(s, block, 80).e) % 0x1_0000_0000,
        absorb(msg, 0) == initial(),
        absorb(msg, n + 1) == compress(absorb(msg, n), msg.subrange(64 * n as int, 64 * n as int + 64)),
{
    assert(((n + 1) - 1) as nat == n);
    assert(64 * (n + 1) as int == 64 * n + 64);
}

/// The digest of a message is that of its padded form: the message, the byte 128, as few zeros
/// as fill the last block, and the length of the message in bits, in eight bytes.
pub proof fn lemma_digest_is(msg: Seq<u8>)
    requires
        msg.len() < MAX_LEN,
    ensures
        ({
            let p = pad(msg);
            let s = absorb(p, p.len() / 64);
            let d = digest(msg);
            &&& p.take(msg.len() as int) == msg
            &&& p[msg.len() as int] == 128
            &&& forall|i: int| msg.len() < i < p.len() - 8 ==> #[trigger] p[i] == 0
            &&& be(p.skip(p.len() - 8)) == 8 * msg.len()
            &&& p.len() % 64 == 0
            &&& p.len() < msg.len() + 9 + 64
            &&& d.len() == 20
            &&& be(d.subrange(0, 4)) == s.a
            &&& be(d.subrange(4, 8)) == s.b
            &&& be(d.subrange(8, 12)) == s.c
            &&& be(d.subrange(12, 16)) == s.d
            &&& be(d.subrange(16, 20)) == s.e
        }),
{
    let p = pad(msg);
    let s = absorb(p, p.len() / 64);
    let d = digest(msg);
    lemma_pad_len(msg);
    lemma_digest_len(msg);
    lemma_to_be_len(8 * msg.len(), 8);
    reveal_with_fuel(crate::be::pow256, 9);
    crate::be::lemma_be_to_be(8 * msg.len(), 8);
    assert(p.skip(p.len() - 8) =~= to_be(8 * msg.len(), 8));
    assert(p.take(msg.len() as int) =~= msg);
    lemma_to_be_len(s.a as nat, 4);
    lemma_to_be_len(s.b as nat, 4);
    lemma_to_be_len(s.c as nat, 4);
    lemma_to_be_len(s.d as nat, 4);
    lemma_to_be_len(s.e as nat, 4);
    crate::be::lemma_be_to_be(s.a as nat, 4);
    crate::be::lemma_be_to_be(s.b as nat, 4);
    crate::be::lemma_be_to_be(s.c as nat, 4);
    crate::be::lemma_be_to_be(s.d as nat, 4);
    crate::be::lemma_be_to_be(s.e as nat, 4);
    assert(d.subrange(0, 4) =~= to_be(s.a as nat, 4));
    assert(d.subrange(4, 8) =~= to_be(s.b as nat, 4));
    assert(d.subrange(8, 12) =~= to_be(s.c as nat, 4));
    assert(d.subrange(12, 16) =~= to_be(s.d as nat, 4));
    assert(d.subrange(16, 20) =~= to_be(s.e as nat, 4));
}

/// The chaining value depends only on the blocks absorbed.
proof fn lemma_absorb_prefix(m: Seq<u8>, more: Seq<u8>, n: nat)
    requires
        64 * n <= m.len(),
    ensures
        absorb(m + more, n) == absorb(m, n),
    decreases n,
{
    if n > 0 {
        lemma_absorb_prefix(m, more, (n - 1) as nat);
        assert((m + more).subrange(64 * (n - 1), 64 * n as int) =~= m.subrange(
            64 * (n - 1),
            64 * n as int,
        ));
    }
}

/// The chaining value after `block`, from the one before it.
fn compress_block(state: Chain, block: &[u8; 64]) -> (r: Chain)
    ensures
        r == compress(state, block@),
{
    let mut w: [u32; 80] = [0u32;80];
    let mut i: usize = 0;
    while i < 16
        invariant
            i <= 16,
            forall|j: int| 0 <= j < i ==> #[trigger] w[j] == word(block@, j as nat),
        decreases 16 - i,
    {
        let x: u32 = be_u32(block[4 * i], block[4 * i + 1], block[4 * i + 2], block[4 * i + 3]);
        assert(seq![
            block[4 * i as int],
            block[4 * i + 1],
            block[4 * i + 2],
            block[4 * i + 3],
        ] =~= block@.subrange(4 * i as int, 4 * i + 4));
        w[i] = x;
        i = i + 1;
    }
    while i < 80
        invariant
            16 <= i <= 80,
            forall|j: int| 0 <= j < i ==> #[trigger] w[j] == word(block@, j as nat),
        decreases 80 - i,
    {
        let x: u32 = rotate(w[i - 3] ^ w[i - 8] ^ w[i - 14] ^ w[i - 16], 1);
        assert(x == word(block@, i as nat));
        w[i] = x;
        i = i + 1;
    }
    let mut s: Chain = state;
    let mut t: usize = 0;
    while t < 80
        invariant
            t <= 80,
            forall|j: int| 0 <= j < 80 ==> #[trigger] w[j] == word(block@, j as nat),
            s == rounds(state, block@, t as nat),
        decreases 80 - t,
    {
        let f: u32 = if t < 20 {
            (s.b & s.c) | ((!s.b) & s.d)
        } else if t < 40 {
            s.b ^ s.c ^ s.d
        } else if t < 60 {
            (s.b & s.c) | (s.b & s.d) | (s.c & s.d)
        } else {
            s.b ^ s.c ^ s.d
        };
        let k: u32 = if t < 20 {
            0x5A827999
        } else if t < 40 {
            0x6ED9EBA1
        } else if t < 60 {
            0x8F1BBCDC
        } else {
            0xCA62C1D6
        };
        let tmp: u32 = rotate(s.a, 5).wrapping_add(f).wrapping_add(s.e).wrapping_add(
            k,
        ).wrapping_add(w[t]);
        let next = Chain { a: tmp, b: s.a, c: rotate(s.b, 30), d: s.c, e: s.d };
        assert(w[t as int] == word(block@, t as nat));
        assert(next == round(s, t as nat, w[t as int]));
        s = next;
        t = t + 1;
    }
    Chain {
        a: state.a.wrapping_add(s.a),
        b: state.b.wrapping_add(s.b),
        c: state.c.wrapping_add(s.c),
        d: state.d.wrapping_add(s.d),
        e: state.e.wrapping_add(s.e),
    }
}

/// The 20 bytes of a chaining value.
fn chain_to_bytes(s: Chain) -> (r: [u8; 20])
    ensures
        r@ == chain_bytes(s),
{
    let mut v: Vec<u8> = Vec::new();
    push_be_u32(&mut v, s.a);
    push_be_u32(&mut v, s.b);
    push_be_u32(&mut v, s.c);
    push_be_u32(&mut v, s.d);
    push_be_u32(&mut v, s.e);
    proof {
        lemma_to_be_len(s.a as nat, 4);
        lemma_to_be_len(s.b as nat, 4);
        lemma_to_be_len(s.c as nat, 4);
        lemma_to_be_len(s.d as nat, 4);
        lemma_to_be_len(s.e as nat, 4);
        assert(v@ =~= chain_bytes(s));
    }
    let mut out: [u8; 20] = [0u8;20];
    let mut i: usize = 0;
    while i < 20
        invariant
            i <= 20,
            v@.len() == 20,
            forall|j: int| 0 <= j < i ==> out[j] == v@[j],
        decreases 20 - i,
    {
        out[i] = v[i];
        i = i + 1;
    }
    assert(out@ =~= v@);
    out
}

/// A SHA-1 computation in progress.
pub struct Sha1 {
    state: Chain,
    len: u64,
    block: [u8; 64],
    fill: usize,
    msg: Ghost<Seq<u8>>,
}

impl View for Sha1 {
    type V = Seq<u8>;

    /// The bytes taken in so far.
    closed spec fn view(&self) -> Seq<u8> {
        self.msg@
    }
}

impl Sha1 {
    /// The whole blocks taken in are absorbed, and the rest stands in `block`.
    pub closed spec fn wf(self) -> bool {
        let n = self.msg@.len();
        &&& self.len == n
        &&& self.fill == n % 64
        &&& self.state == absorb(self.msg@, n / 64)
        &&& forall|i: int|
            0 <= i < self.fill ==> #[trigger] self.block[i] == self.msg@[n - n % 64 + i]
    }

    pub fn new() -> (r: Self)
        ensures
            r.wf(),
            r@ == Seq::<u8>::empty(),
    {
        Sha1 {
            state: Chain {
                a: 0x67452301,
                b: 0xEFCDAB89,
                c: 0x98BADCFE,
                d: 0x10325476,
                e: 0xC3D2E1F0,
            },
            len: 0,
            block: [0u8;64],
            fill: 0,
            msg: Ghost(Seq::empty()),
        }
    }

    /// Takes in one byte.
    fn push(&mut self, byte: u8)
        requires
            old(self).wf(),
            old(self)@.len() < u64::MAX,
        ensures
            final(self).wf(),
            final(self)@ == old(self)@.push(byte),
    {
        let ghost m = self.msg@;
        let ghost n = m.len();
        self.block[self.fill] = byte;
        self.fill = self.fill + 1;
        self.len = self.len + 1;
        proof {
            self.msg@ = m.push(byte);
            assert(m + seq![byte] =~= m.push(byte));
            lemma_absorb_prefix(m, seq![byte], n / 64);
        }
        if self.fill == 64 {
            self.process_block();
            self.fill = 0;
        }
    }

    /// Absorbs the full block.
    fn process_block(&mut self)
        requires
            old(self).fill == 64,
            old(self).msg@.len() > 0,
            old(self).msg@.len() % 64 == 0,
            old(self).state == absorb(old(self).msg@, (old(self).msg@.len() / 64 - 1) as nat),
            forall|i: int|
                0 <= i < 64 ==> #[trigger] old(self).block[i] == old(self).msg@[old(
                    self,
                ).msg@.len() - 64 + i],
        ensures
            final(self).state == absorb(final(self).msg@, final(self).msg@.len() / 64),
            final(self).msg == old(self).msg,
            final(self).len == old(self).len,
            final(self).fill == old(self).fill,
            final(self).block == old(self).block,
    {
        let ghost n = self.msg@.len();
        assert(self.block@ =~= self.msg@.subrange(n - 64, n as int));
        self.state = compress_block(self.state, &self.block);
    }

    /// Takes in `data`.
    pub fn update(&mut self, data: &[u8])
        requires
            old(self).wf(),
            old(self)@.len() + data@.len() <= u64::MAX,
        ensures
            final(self).wf(),
            final(self)@ == old(self)@ + data@,
    {
        let mut i: usize = 0;
        assert(self@ =~= old(self)@ + data@.subrange(0, 0));
        while i < data.len()
            invariant
                i <= data@.len(),
                self.wf(),
                old(self)@.len() + data@.len() <= u64::MAX,
                self@ == old(self)@ + data@.subrange(0, i as int),
            decreases data@.len() - i,
        {
            self.push(data[i]);
            i = i + 1;
            assert(self@ =~= old(self)@ + data@.subrange(0, i as int));
        }
        assert(data@.subrange(0, data@.len() as int) =~= data@);
    }

    /// The digest of the bytes taken in.
    pub fn finish(self) -> (r: [u8; 20])
        requires
            self.wf(),
            self@.len() < MAX_LEN,
        ensures
            r@ == digest(self@),
    {
        let mut h = self;
        let ghost m = h@;
        let ghost n = m.len();
        let bit_len: u64 = h.len * 8;
        h.push(0x80);
        let ghost mut z: nat = 0;
        assert(h@ =~= m + seq![0x80u8] + Seq::new(0, |i: int| 0u8));
        while h.fill != 56
            invariant
                h.wf(),
                n == m.len(),
                n < MAX_LEN,
                z <= zeros(n),
                h@ == m + seq![0x80u8] + Seq::new(z, |i: int| 0u8),
            decreases zeros(n) - z,
        {
            h.push(0x00);
            proof {
                z = z + 1;
                assert(h@ =~= m + seq![0x80u8] + Seq::new(z, |i: int| 0u8));
            }
        }
        let mut len_bytes: Vec<u8> = Vec::new();
        push_be_u64(&mut len_bytes, bit_len);
        assert(z == zeros(n));
        assert(len_bytes@ =~= to_be(8 * n, 8));
        proof {
            lemma_to_be_len(8 * n, 8);
            lemma_pad_len(m);
        }
        h.update(len_bytes.as_slice());
        assert(h@ =~= pad(m));
        chain_to_bytes(h.state)
    }
}

/// The SHA-1 digest of `data`.
pub fn sha1(data: &[u8]) -> (r: [u8; 20])
    requires
        data@.len() < MAX_LEN,
        data@.len() + 72 <= usize::MAX,
    ensures
        r@ == digest(data@),
{
    let bit_len: u64 = data.len() as u64 * 8;
    let ghost n = data@.len();
    let mut msg: Vec<u8> = Vec::new();
    msg.extend_from_slice(data);
    assert(msg@ =~= data@);
    msg.push(0x80);
    let ghost mut z: nat = 0;
    assert(msg@ =~= data@ + seq![0x80u8] + Seq::new(0, |i: int| 0u8));
    while msg.len() % 64 != 56
        invariant
            n == data@.len(),
            n + 72 <= usize::MAX,
            z <= zeros(n),
            msg@ == data@ + seq![0x80u8] + Seq::new(z, |i: int| 0u8),
        decreases zeros(n) - z,
    {
        msg.push(0);
        proof {
            z = z + 1;
            assert(msg@ =~= data@ + seq![0x80u8] + Seq::new(z, |i: int| 0u8));
        }
    }
    assert(z == zeros(n));
    push_be_u64(&mut msg, bit_len);
    proof {
        lemma_pad_len(data@);
        assert(msg@ =~= pad(data@));
    }
    let total: usize = msg.len();
    let mut state = Chain {
        a: 0x67452301,
        b: 0xEFCDAB89,
        c: 0x98BADCFE,
        d: 0x10325476,
        e: 0xC3D2E1F0,
    };
    let mut at: usize = 0;
    while at < total
        invariant
            msg@ == pad(data@),
            total == msg@.len(),
            total % 64 == 0,
            at % 64 == 0,
            at <= total,
            state == absorb(msg@, (at / 64) as nat),
        decreases total - at,
    {
        let mut block: [u8; 64] = [0u8;64];
        let mut i: usize = 0;
        while i < 64
            invariant
                i <= 64,
                at + 64 <= msg@.len(),
                msg@.len() <= usize::MAX,
                forall|j: int| 0 <= j < i ==> block[j] == msg@[at + j],
            decreases 64 - i,
        {
            block[i] = msg[at + i];
            i = i + 1;
        }
        assert(block@ =~= msg@.subrange(at as int, at + 64));
        state = compress_block(state, &block);
        at = at + 64;
    }
    chain_to_bytes(state)
}

} // verus!
