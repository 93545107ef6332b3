//! Big-endian numbers: what a run of bytes stands for, and the bytes of a number.

use vstd::prelude::*;

verus! {

/// The number that `s` stands for, most significant byte first.
pub open spec fn be(s: Seq<u8>) -> nat
    decreases s.len(),
{
    if s.len() == 0 {
        0
    } else {
        be(s.drop_last()) * 256 + s.last() as nat
    }
}

/// The `width` lowest bytes of `n`, most significant byte first.
pub open spec fn to_be(n: nat, width: nat) -> Seq<u8>
    decreases width,
{
    if width == 0 {
        Seq::empty()
    } else {
        to_be(n / 256, (width - 1) as nat).push((n % 256) as u8)
    }
}

/// How many numbers `width` bytes can stand for.
pub open spec fn pow256(width: nat) -> nat
    decreases width,
{
    if width == 0 {
        1
    } else {
        256 * pow256((width - 1) as nat)
    }
}

/// `width` bytes stand for a number below `pow256(width)`.
pub proof fn lemma_be_bound(s: Seq<u8>)
    ensures
        be(s) < pow256(s.len()),
    decreases s.len(),
{
    if s.len() > 0 {
        lemma_be_bound(s.drop_last());
    }
}

pub proof fn lemma_to_be_len(n: nat, width: nat)
    ensures
        to_be(n, width).len() == width,
    decreases width,
{
    if width > 0 {
        lemma_to_be_len(n / 256, (width - 1) as nat);
    }
}

/// Reading back the bytes of a number gives the number.
pub proof fn lemma_be_to_be(n: nat, width: nat)
    requires
        n < pow256(width),
    ensures
        be(to_be(n, width)) == n,
    decreases width,
{
    if width > 0 {
        let rest = to_be(n / 256, (width - 1) as nat);
        assert(n / 256 < pow256((width - 1) as nat));
        lemma_be_to_be(n / 256, (width - 1) as nat);
        assert(to_be(n, width).drop_last() =~= rest);
    }
}

/// The bytes of the number that `s` stands for are `s`.
pub proof fn lemma_to_be_be(s: Seq<u8>)
    ensures
        to_be(be(s), s.len()) == s,
    decreases s.len(),
{
    if s.len() > 0 {
        lemma_to_be_be(s.drop_last());
        assert(be(s) / 256 == be(s.drop_last()));
        assert(be(s) % 256 == s.last() as nat);
        assert(s.drop_last().push(s.last()) =~= s);
    } else {
        assert(s =~= Seq::<u8>::empty());
    }
}

/// Two runs of bytes of one length that stand for one number are equal.
pub proof fn lemma_be_injective(s: Seq<u8>, t: Seq<u8>)
    requires
        s.len() == t.len(),
        be(s) == be(t),
    ensures
        s == t,
{
    lemma_to_be_be(s);
    lemma_to_be_be(t);
}

pub proof fn lemma_be_push(s: Seq<u8>, b: u8)
    ensures
        be(s.push(b)) == be(s) * 256 + b as nat,
{
    assert(s.push(b).drop_last() =~= s);
}

/// The bytes of a number are those of its high part, then those of its low part.
pub proof fn lemma_to_be_split(hi: nat, lo: nat, high_width: nat, width: nat)
    requires
        lo < pow256(width),
    ensures
        to_be(hi * pow256(width) + lo, high_width + width) == to_be(hi, high_width) + to_be(lo, width),
    decreases width,
{
    if width == 0 {
        assert(to_be(hi, high_width) + to_be(lo, 0) =~= to_be(hi, high_width));
    } else {
        let w = (width - 1) as nat;
        let p = pow256(w);
        let n = hi * pow256(width) + lo;
        assert(hi * (256 * p) == 256 * (hi * p)) by (nonlinear_arith);
        assert(n == 256 * (hi * p) + lo);
        assert(n / 256 == hi * p + lo / 256);
        assert(n % 256 == lo % 256);
        lemma_to_be_split(hi, lo / 256, high_width, w);
        assert(to_be(n, high_width + width) =~= to_be(hi, high_width) + to_be(lo, width));
    }
}

/// The two-byte number `a b`.
pub fn be_u16(a: u8, b: u8) -> (r: u16)
    ensures
        r == be(seq![a, b]),
{
    proof {
        reveal_with_fuel(be, 3);
        assert(seq![a, b].drop_last() =~= seq![a]);
        assert(seq![a].drop_last() =~= Seq::<u8>::empty());
    }
    (a as u16) * 256 + (b as u16)
}

/// The four-byte number `a b c d`.
pub fn be_u32(a: u8, b: u8, c: u8, d: u8) -> (r: u32)
    ensures
        r == be(seq![a, b, c, d]),
{
    proof {
        reveal_with_fuel(be, 5);
        assert(seq![a, b, c, d].drop_last() =~= seq![a, b, c]);
        assert(seq![a, b, c].drop_last() =~= seq![a, b]);
        assert(seq![a, b].drop_last() =~= seq![a]);
        assert(seq![a].drop_last() =~= Seq::<u8>::empty());
    }
    (a as u32) * 0x100_0000 + (b as u32) * 0x1_0000 + (c as u32) * 0x100 + (d as u32)
}

/// The number that the eight bytes of `s` from `at` on stand for.
pub fn be_u64(s: &[u8], at: usize) -> (r: u64)
    requires
        at + 8 <= s@.len(),
    ensures
        r == be(s@.subrange(at as int, at + 8)),
{
    let mut acc: u64 = 0;
    let mut i: usize = 0;
    let len: usize = s.len();
    assert(s@.subrange(at as int, at as int) =~= Seq::<u8>::empty());
    proof {
        reveal_with_fuel(pow256, 9);
    }
    while i < 8
        invariant
            i <= 8,
            at + 8 <= len,
            len == s@.len(),
            acc == be(s@.subrange(at as int, at + i)),
            pow256(8) == 0x1_0000_0000_0000_0000,
        decreases 8 - i,
    {
        proof {
            let next = s@.subrange(at as int, at + i + 1);
            assert(next =~= s@.subrange(at as int, at + i).push(s@[at + i]));
            lemma_be_push(s@.subrange(at as int, at + i), s@[at + i]);
            lemma_be_bound(next);
            lemma_pow256_monotonic((i + 1) as nat, 8);
        }
        acc = acc * 256 + (s[at + i] as u64);
        i = i + 1;
    }
    acc
}

pub proof fn lemma_pow256_monotonic(a: nat, b: nat)
    requires
        a <= b,
    ensures
        pow256(a) <= pow256(b),
    decreases b,
{
    if a < b {
        lemma_pow256_monotonic(a, (b - 1) as nat);
    }
}

/// The number that a sixteen-byte id stands for.
pub fn key_of(id: &[u8; 16]) -> (r: u128)
    ensures
        r == be(id@),
{
    let mut acc: u128 = 0;
    let mut i: usize = 0;
    assert(id@.take(0) =~= Seq::<u8>::empty());
    proof {
        reveal_with_fuel(pow256, 17);
    }
    while i < 16
        invariant
            i <= 16,
            acc == be(id@.take(i as int)),
            pow256(16) == 0x1_0000_0000_0000_0000_0000_0000_0000_0000,
        decreases 16 - i,
    {
        proof {
            let next = id@.take(i + 1);
            assert(next =~= id@.take(i as int).push(id@[i as int]));
            lemma_be_push(id@.take(i as int), id@[i as int]);
            lemma_be_bound(next);
            lemma_pow256_monotonic((i + 1) as nat, 16);
        }
        acc = acc * 256 + (id[i] as u128);
        i = i + 1;
    }
    assert(id@.take(16) =~= id@);
    acc
}

/// Appends the two bytes of `n` to `out`.
pub fn push_be_u16(out: &mut Vec<u8>, n: u16)
    ensures
        final(out)@ == old(out)@ + to_be(n as nat, 2),
{
    proof {
        reveal_with_fuel(to_be, 3);
    }
    out.push((n / 256) as u8);
    out.push((n % 256) as u8);
    assert(out@ =~= old(out)@ + to_be(n as nat, 2));
}

/// Appends the four bytes of `n` to `out`.
pub fn push_be_u32(out: &mut Vec<u8>, n: u32)
    ensures
        final(out)@ == old(out)@ + to_be(n as nat, 4),
{
    proof {
        reveal_with_fuel(to_be, 5);
    }
    out.push((n / 0x100_0000) as u8);
    out.push((n / 0x1_0000 % 256) as u8);
    out.push((n / 0x100 % 256) as u8);
    out.push((n % 256) as u8);
    assert(out@ =~= old(out)@ + to_be(n as nat, 4));
}

/// Appends the eight bytes of `n` to `out`.
pub fn push_be_u64(out: &mut Vec<u8>, n: u64)
    ensures
        final(out)@ == old(out)@ + to_be(n as nat, 8),
{
    let hi: u32 = (n / 0x1_0000_0000) as u32;
    let lo: u32 = (n % 0x1_0000_0000) as u32;
    push_be_u32(out, hi);
    push_be_u32(out, lo);
    proof {
        reveal_with_fuel(pow256, 5);
        assert(pow256(4) == 0x1_0000_0000);
        lemma_to_be_split(hi as nat, lo as nat, 4, 4);
        assert(out@ =~= old(out)@ + to_be(n as nat, 8));
    }
}

/// The weight of each place is 256 times that of the next: what two and four bytes stand for.
pub proof fn lemma_be_literal(a: u8, b: u8, c: u8, d: u8)
    ensures
        be(Seq::empty()) == 0,
        be(seq![a]) == a,
        be(seq![a, b]) == a * 256 + b,
        be(seq![a, b, c, d]) == a * 0x100_0000 + b * 0x1_0000 + c * 0x100 + d,
{
    reveal_with_fuel(be, 5);
    assert(seq![a, b, c, d].drop_last() =~= seq![a, b, c]);
    assert(seq![a, b, c].drop_last() =~= seq![a, b]);
    assert(seq![a, b].drop_last() =~= seq![a]);
    assert(seq![a].drop_last() =~= Seq::<u8>::empty());
}

/// Bytes in front of others weigh as many places more as there are others.
pub proof fn lemma_be_add(a: Seq<u8>, b: Seq<u8>)
    ensures
        be(a + b) == be(a) * pow256(b.len()) + be(b),
    decreases b.len(),
{
    if b.len() == 0 {
        assert(a + b =~= a);
        assert(be(a) * 1 == be(a));
    } else {
        let front = b.drop_last();
        assert((a + b).drop_last() =~= a + front);
        lemma_be_add(a, front);
        let p = pow256(front.len());
        assert((be(a) * p + be(front)) * 256 == be(a) * (256 * p) + be(front) * 256)
            by (nonlinear_arith);
    }
}

} // verus!
