//! Base64 (RFC 4648) with padding.

use vstd::prelude::*;
use crate::text::{chars_of, string_of};

verus! {

/// The character for a six-bit value.
pub open spec fn symbol(v: nat) -> char {
    if v < 26 {
        (65 + v) as u8 as char
    } else if v < 52 {
        (97 + v - 26) as u8 as char
    } else if v < 62 {
        (48 + v - 52) as u8 as char
    } else if v == 62 {
        '+'
    } else {
        '/'
    }
}

/// The six-bit value of a character.
pub open spec fn value(c: char) -> Option<nat> {
    if 'A' <= c <= 'Z' {
        Some((c as nat - 65) as nat)
    } else if 'a' <= c <= 'z' {
        Some((c as nat - 97 + 26) as nat)
    } else if '0' <= c <= '9' {
        Some((c as nat - 48 + 52) as nat)
    } else if c == '+' {
        Some(62)
    } else if c == '/' {
        Some(63)
    } else {
        None
    }
}

/// Byte `i` of `data`, with zeros behind its end.
pub open spec fn byte_or_zero(data: Seq<u8>, i: int) -> nat {
    if 0 <= i < data.len() {
        data[i] as nat
    } else {
        0
    }
}

/// Bits `6 * i` up to `6 * i + 6` of `data`.
pub open spec fn sextet(data: Seq<u8>, i: int) -> nat {
    let g = i / 4;
    let a = byte_or_zero(data, 3 * g);
    let b = byte_or_zero(data, 3 * g + 1);
    let c = byte_or_zero(data, 3 * g + 2);
    if i % 4 == 0 {
        a / 4
    } else if i % 4 == 1 {
        (a % 4) * 16 + b / 16
    } else if i % 4 == 2 {
        (b % 16) * 4 + c / 64
    } else {
        c % 64
    }
}

/// Four characters for every three bytes, the last four padded with `=`.
pub open spec fn encoded(data: Seq<u8>) -> Seq<char> {
    Seq::new(
        4 * ((data.len() + 2) / 3),
        |i: int|
            if 6 * i < 8 * data.len() {
                symbol(sextet(data, i))
            } else {
                '='
            },
    )
}

/// `s` without the `=` that it ends with.
pub open spec fn unpadded(s: Seq<char>) -> Seq<char>
    decreases s.len(),
{
    if s.len() > 0 && s.last() == '=' {
        unpadded(s.drop_last())
    } else {
        s
    }
}

/// The value of a character of the alphabet.
pub open spec fn bits(c: char) -> nat {
    match value(c) {
        Some(v) => v,
        None => 0,
    }
}

/// Bits `8 * j` up to `8 * j + 8` of the values of `s`.
pub open spec fn octet(s: Seq<char>, j: int) -> u8 {
    let g = j / 3;
    if j % 3 == 0 {
        (bits(s[4 * g]) * 4 + bits(s[4 * g + 1]) / 16) as u8
    } else if j % 3 == 1 {
        ((bits(s[4 * g + 1]) % 16) * 16 + bits(s[4 * g + 2]) / 4) as u8
    } else {
        ((bits(s[4 * g + 2]) % 4) * 64 + bits(s[4 * g + 3])) as u8
    }
}

/// The whole bytes in the bits of `s`, whose last `=` count for nothing. `None` if any
/// other character is outside the alphabet.
pub open spec fn decoded(s: Seq<char>) -> Option<Seq<u8>> {
    let t = unpadded(s);
    if forall|i: int| 0 <= i < t.len() ==> value(#[trigger] t[i]) is Some {
        Some(Seq::new(6 * t.len() / 8, |j: int| octet(t, j)))
    } else {
        None
    }
}

/// A symbol's value is the value it stands for, and no symbol is the padding.
proof fn lemma_symbol(v: nat)
    requires
        v < 64,
    ensures
        value(symbol(v)) == Some(v),
        symbol(v) != '=',
{
}

proof fn lemma_sextet_bound(data: Seq<u8>, i: int)
    ensures
        sextet(data, i) < 64,
{
}

/// Taking off trailing padding leaves what stands before it, if that does not itself end
/// in padding.
proof fn lemma_unpadded(s: Seq<char>, n: nat)
    requires
        n <= s.len(),
        forall|i: int| n <= i < s.len() ==> s[i] == '=',
        n > 0 ==> s[n - 1] != '=',
    ensures
        unpadded(s) == s.take(n as int),
    decreases s.len(),
{
    if s.len() > n {
        lemma_unpadded(s.drop_last(), n);
        assert(s.drop_last().take(n as int) =~= s.take(n as int));
    } else {
        assert(s.take(n as int) =~= s);
    }
}

/// Decoding what was encoded gives the bytes back.
pub proof fn lemma_decode_encode(data: Seq<u8>)
    ensures
        decoded(encoded(data)) == Some(data),
{
    let e = encoded(data);
    let n = data.len();
    let k = (8 * n + 5) / 6;
    if n > 0 {
        lemma_sextet_bound(data, k - 1);
        lemma_symbol(sextet(data, k - 1));
    }
    lemma_unpadded(e, k);
    let t = unpadded(e);
    assert(t.len() == k);
    assert forall|i: int| 0 <= i < t.len() implies value(#[trigger] t[i]) == Some(
        sextet(data, i),
    ) by {
        lemma_sextet_bound(data, i);
        lemma_symbol(sextet(data, i));
    }
    assert(6 * k / 8 == n);
    let out = Seq::new(6 * t.len() / 8, |j: int| octet(t, j));
    assert forall|j: int| 0 <= j < n implies out[j] == data[j] by {
        let g = j / 3;
        if j % 3 == 0 {
            assert(j == 3 * g);
            assert(value(t[4 * g]) == Some(sextet(data, 4 * g)));
            assert(value(t[4 * g + 1]) == Some(sextet(data, 4 * g + 1)));
        } else if j % 3 == 1 {
            assert(j == 3 * g + 1);
            assert(value(t[4 * g + 1]) == Some(sextet(data, 4 * g + 1)));
            assert(value(t[4 * g + 2]) == Some(sextet(data, 4 * g + 2)));
        } else {
            assert(j == 3 * g + 2);
            assert(value(t[4 * g + 2]) == Some(sextet(data, 4 * g + 2)));
            assert(value(t[4 * g + 3]) == Some(sextet(data, 4 * g + 3)));
        }
    }
    assert(out =~= data);
}

/// The alphabet is that of RFC 4648, and a character has a value exactly if it is in it.
pub proof fn lemma_alphabet(v: nat, c: char)
    ensures
        v < 64 ==> symbol(v)
            == "ABCDEFGHIJKLMNOPQRSTUVWXYZabcdefghijklmnopqrstuvwxyz0123456789+/"@[v as int],
        value(c) matches Some(w) ==> w < 64 && symbol(w) == c,
        value(c) is None ==> forall|w: nat| w < 64 ==> #[trigger] symbol(w) != c,
{
    reveal_strlit("ABCDEFGHIJKLMNOPQRSTUVWXYZabcdefghijklmnopqrstuvwxyz0123456789+/");
    assert forall|w: nat| w < 64 && value(c) is None implies #[trigger] symbol(w) != c by {
        lemma_symbol(w);
    }
}

/// The value of a character of the alphabet, nothing for the padding.
pub open spec fn worth(c: char) -> nat {
    if c == '=' {
        0
    } else {
        bits(c)
    }
}

/// Every three bytes are four characters: the same number, in base 64. What is missing of the
/// last three counts as zero, and as many characters as hold none of them are padding.
pub proof fn lemma_encoded_groups(data: Seq<u8>, g: int)
    requires
        0 <= 3 * g < data.len(),
    ensures
        ({
            let e = encoded(data);
            let b = |i: int|
                if i < data.len() {
                    data[i] as nat
                } else {
                    0nat
                };
            &&& e.len() % 4 == 0
            &&& 3 * e.len() < 4 * data.len() + 12
            &&& 4 * data.len() <= 3 * e.len()
            &&& 4 * g + 3 < e.len()
            &&& worth(e[4 * g]) * 262144 + worth(e[4 * g + 1]) * 4096 + worth(e[4 * g + 2]) * 64
                + worth(e[4 * g + 3]) == b(3 * g) * 65536 + b(3 * g + 1) * 256 + b(3 * g + 2)
            &&& e[4 * g] != '=' && e[4 * g + 1] != '='
            &&& e[4 * g + 2] == '=' <==> 3 * g + 1 >= data.len()
            &&& e[4 * g + 3] == '=' <==> 3 * g + 2 >= data.len()
        }),
{
    let e = encoded(data);
    assert forall|i: int| 0 <= i < e.len() implies worth(#[trigger] e[i]) == (if 6 * i < 8
        * data.len() {
        sextet(data, i)
    } else {
        0
    }) && (e[i] == '=' <==> 6 * i >= 8 * data.len()) by {
        lemma_sextet_bound(data, i);
        lemma_symbol(sextet(data, i));
    }
    assert(4 * g + 3 < e.len());
    let x0 = sextet(data, 4 * g);
    let x1 = sextet(data, 4 * g + 1);
    let x2 = sextet(data, 4 * g + 2);
    let x3 = sextet(data, 4 * g + 3);
    assert((4 * g) / 4 == g && (4 * g + 1) / 4 == g && (4 * g + 2) / 4 == g && (4 * g + 3) / 4
        == g);
    assert(worth(e[4 * g]) == x0);
    assert(worth(e[4 * g + 1]) == x1);
    assert(worth(e[4 * g + 2]) == x2);
    assert(worth(e[4 * g + 3]) == x3);
}

/// A text is decoded exactly if all its characters are of the alphabet but for the padding at
/// its end; every four of them give the three bytes that are the same number.
pub proof fn lemma_decoded_groups(s: Seq<char>, n: nat)
    requires
        n <= s.len(),
        forall|i: int| n <= i < s.len() ==> s[i] == '=',
        n > 0 ==> s[n - 1] != '=',
    ensures
        decoded(s) is Some <==> forall|i: int| 0 <= i < n ==> value(#[trigger] s[i]) is Some,
        decoded(s) matches Some(d) ==> {
            &&& d.len() == 6 * n / 8
            &&& forall|g: int|
                0 <= g && 4 * g + 3 < n ==> #[trigger] d[3 * g] * 65536 + d[3 * g + 1] * 256 + d[3
                    * g + 2] == bits(s[4 * g]) * 262144 + bits(s[4 * g + 1]) * 4096 + bits(
                    s[4 * g + 2],
                ) * 64 + bits(s[4 * g + 3])
        },
{
    lemma_unpadded(s, n);
    let t = unpadded(s);
    assert forall|i: int| 0 <= i < n implies #[trigger] t[i] == s[i] by {}
    if forall|i: int| 0 <= i < t.len() ==> value(#[trigger] t[i]) is Some {
        assert forall|i: int| 0 <= i < n implies value(#[trigger] s[i]) is Some by {
            assert(t[i] == s[i]);
        }
        let d = decoded(s)->0;
        assert forall|g: int| 0 <= g && 4 * g + 3 < n implies #[trigger] d[3 * g] * 65536 + d[3 * g
            + 1] * 256 + d[3 * g + 2] == bits(s[4 * g]) * 262144 + bits(s[4 * g + 1]) * 4096 + bits(
            s[4 * g + 2],
        ) * 64 + bits(s[4 * g + 3]) by {
            assert((3 * g) / 3 == g && (3 * g + 1) / 3 == g && (3 * g + 2) / 3 == g);
            lemma_bits_bound(t[4 * g]);
            lemma_bits_bound(t[4 * g + 1]);
            lemma_bits_bound(t[4 * g + 2]);
            lemma_bits_bound(t[4 * g + 3]);
        }
    } else {
        let i = choose|i: int| 0 <= i < t.len() && !(value(#[trigger] t[i]) is Some);
        assert(s[i] == t[i]);
    }
}

proof fn lemma_bits_bound(c: char)
    ensures
        bits(c) < 64,
{
}

fn symbol_of(v: u8) -> (r: char)
    requires
        v < 64,
    ensures
        r == symbol(v as nat),
{
    if v < 26 {
        (65 + v) as char
    } else if v < 52 {
        (97 + (v - 26)) as char
    } else if v < 62 {
        (48 + (v - 52)) as char
    } else if v == 62 {
        '+'
    } else {
        '/'
    }
}

fn value_of(c: char) -> (r: Option<u8>)
    ensures
        match r {
            Some(v) => value(c) == Some(v as nat) && v < 64,
            None => value(c) is None,
        },
{
    if 'A' <= c && c <= 'Z' {
        Some(c as u8 - 65)
    } else if 'a' <= c && c <= 'z' {
        Some(c as u8 - 97 + 26)
    } else if '0' <= c && c <= '9' {
        Some(c as u8 - 48 + 52)
    } else if c == '+' {
        Some(62)
    } else if c == '/' {
        Some(63)
    } else {
        None
    }
}

/// `data` in base64.
pub fn base64_encode(data: &[u8]) -> (r: String)
    ensures
        r@ == encoded(data@),
{
    let n: usize = data.len();
    let mut out: Vec<char> = Vec::new();
    let mut at: usize = 0;
    while at < n
        invariant
            at % 3 == 0,
            at <= n,
            n == data@.len(),
            out@.len() == 4 * (at / 3),
            forall|i: int| 0 <= i < out@.len() ==> out@[i] == encoded(data@)[i],
        decreases n - at,
    {
        let a: u8 = data[at];
        let b: u8 = if n - at > 1 {
            data[at + 1]
        } else {
            0
        };
        let c: u8 = if n - at > 2 {
            data[at + 2]
        } else {
            0
        };
        let ghost g = at / 3;
        let ghost had = out@;
        assert(a as nat == byte_or_zero(data@, 3 * g as int));
        assert(b as nat == byte_or_zero(data@, 3 * g + 1));
        assert(c as nat == byte_or_zero(data@, 3 * g + 2));
        out.push(symbol_of(a / 4));
        out.push(symbol_of((a % 4) * 16 + b / 16));
        out.push(
            if n - at > 1 {
                symbol_of((b % 16) * 4 + c / 64)
            } else {
                '='
            },
        );
        out.push(
            if n - at > 2 {
                symbol_of(c % 64)
            } else {
                '='
            },
        );
        proof {
            let e = encoded(data@);
            assert(e.len() >= 4 * g + 4);
            assert(out@[4 * g as int] == e[4 * g as int]);
            assert(out@[4 * g + 1] == e[4 * g + 1]);
            assert(out@[4 * g + 2] == e[4 * g + 2]);
            assert(out@[4 * g + 3] == e[4 * g + 3]);
            assert forall|i: int| 0 <= i < out@.len() implies out@[i] == e[i] by {
                if i < 4 * g {
                    assert(out@[i] == had[i]);
                }
            }
        }
        if n - at <= 3 {
            assert(out@ =~= encoded(data@));
            return string_of(out.as_slice());
        }
        at = at + 3;
    }
    assert(out@ =~= encoded(data@));
    string_of(out.as_slice())
}

/// The bytes that the characters `s` stand for.
pub fn decode_chars(s: &[char]) -> (r: Option<Vec<u8>>)
    ensures
        match r {
            Some(bytes) => decoded(s@) == Some(bytes@),
            None => decoded(s@) is None,
        },
{
    let mut len: usize = s.len();
    assert(s@.take(len as int) =~= s@);
    while len > 0 && s[len - 1] == '='
        invariant
            len <= s@.len(),
            unpadded(s@) == unpadded(s@.take(len as int)),
        decreases len,
    {
        assert(s@.take(len as int).drop_last() =~= s@.take(len - 1));
        len = len - 1;
    }
    let ghost t = s@.take(len as int);
    assert(unpadded(s@) == t);
    let mut out: Vec<u8> = Vec::new();
    let mut rem: u8 = 0;
    let mut i: usize = 0;
    while i < len
        invariant
            i <= len <= s@.len(),
            t == s@.take(len as int),
            unpadded(s@) == t,
            forall|j: int| 0 <= j < i ==> value(#[trigger] t[j]) is Some,
            out@.len() == 6 * i / 8,
            forall|j: int| 0 <= j < out@.len() ==> out@[j] == octet(t, j),
            i % 4 == 0 ==> rem == 0,
            i % 4 == 1 ==> rem as nat == bits(t[i - 1]) && rem < 64,
            i % 4 == 2 ==> rem as nat == bits(t[i - 1]) % 16,
            i % 4 == 3 ==> rem as nat == bits(t[i - 1]) % 4,
        decreases len - i,
    {
        assert(s@[i as int] == t[i as int]);
        match value_of(s[i]) {
            None => {
                return None;
            },
            Some(v) => {
                let ghost g = i / 4;
                let phase: usize = i % 4;
                if phase == 0 {
                    rem = v;
                } else if phase == 1 {
                    assert(out@.len() == 3 * g);
                    out.push(rem * 4 + v / 16);
                    rem = v % 16;
                } else if phase == 2 {
                    assert(out@.len() == 3 * g + 1);
                    out.push(rem * 16 + v / 4);
                    rem = v % 4;
                } else {
                    assert(out@.len() == 3 * g + 2);
                    out.push(rem * 64 + v);
                    rem = 0;
                }
            },
        }
        i = i + 1;
    }
    assert(out@ =~= Seq::new(6 * t.len() / 8, |j: int| octet(t, j)));
    Some(out)
}

/// The bytes that `s` stands for.
pub fn base64_decode(s: &str) -> (r: Option<Vec<u8>>)
    ensures
        match r {
            Some(bytes) => decoded(s@) == Some(bytes@),
            None => decoded(s@) is None,
        },
{
    let chars: Vec<char> = chars_of(s);
    decode_chars(chars.as_slice())
}

} // verus!
