//! Showing bytes to people.

use vstd::prelude::*;
use crate::protocol::Identity;
use crate::text::{chars_of, part, string_of};
use crate::ws::upgrade::{text_lossy, utf8_lossy};

verus! {

/// The lower-case digit for a value below sixteen.
pub open spec fn digit(v: nat) -> char {
    if v < 10 {
        (48 + v) as u8 as char
    } else {
        (87 + v) as u8 as char
    }
}

/// Two digits for every byte.
pub open spec fn hex(data: Seq<u8>) -> Seq<char>
    decreases data.len(),
{
    if data.len() == 0 {
        Seq::empty()
    } else {
        hex(data.drop_last()) + seq![
            digit(data.last() as nat / 16),
            digit(data.last() as nat % 16),
        ]
    }
}

/// The first `n` of `s`, or all of it.
pub open spec fn up_to<T>(s: Seq<T>, n: nat) -> Seq<T> {
    if n < s.len() {
        s.take(n as int)
    } else {
        s
    }
}

fn digit_of(v: u8) -> (r: char)
    requires
        v < 16,
    ensures
        r == digit(v as nat),
{
    if v < 10 {
        (48 + v) as char
    } else {
        (87 + v) as char
    }
}

/// The first `maxlen` bytes in hexadecimal.
pub fn hexify(data: &[u8], maxlen: usize) -> (r: String)
    ensures
        r@ == hex(up_to(data@, maxlen as nat)),
{
    let n: usize = if maxlen < data.len() {
        maxlen
    } else {
        data.len()
    };
    let mut out: String = String::new();
    let mut i: usize = 0;
    assert(data@.take(0) =~= Seq::<u8>::empty());
    while i < n
        invariant
            i <= n <= data@.len(),
            out@ == hex(data@.take(i as int)),
        decreases n - i,
    {
        let b: u8 = data[i];
        out.push(digit_of(b / 16));
        out.push(digit_of(b % 16));
        proof {
            assert(data@.take(i + 1).drop_last() =~= data@.take(i as int));
            assert(out@ =~= hex(data@.take(i + 1)));
        }
        i = i + 1;
    }
    assert(data@.take(n as int) =~= up_to(data@, maxlen as nat));
    out
}

/// The first `maxlen` bytes of each in hexadecimal.
pub fn _hexify_vec(data: &[&[u8]], maxlen: usize) -> (r: Vec<String>)
    ensures
        r@.len() == data@.len(),
        forall|i: int|
            0 <= i < r@.len() ==> (#[trigger] r@[i])@ == hex(up_to(data@[i]@, maxlen as nat)),
{
    let mut out: Vec<String> = Vec::new();
    let mut i: usize = 0;
    while i < data.len()
        invariant
            i <= data@.len(),
            out@.len() == i,
            forall|j: int|
                0 <= j < i ==> (#[trigger] out@[j])@ == hex(up_to(data@[j]@, maxlen as nat)),
        decreases data@.len() - i,
    {
        out.push(hexify(data[i], maxlen));
        i = i + 1;
    }
    out
}

/// The first `maxlen` characters of what the bytes encode, with a replacement character for
/// what is not UTF-8.
pub fn stringify(data: &[u8], maxlen: usize) -> (r: String)
    ensures
        r@ == up_to(utf8_lossy(data@), maxlen as nat),
{
    let text: String = text_lossy(data);
    first_chars(text.as_str(), maxlen)
}

/// The first `maxlen` characters of a text.
pub fn first_chars(text: &str, maxlen: usize) -> (r: String)
    ensures
        r@ == up_to(text@, maxlen as nat),
{
    let chars: Vec<char> = chars_of(text);
    let n: usize = if maxlen < chars.len() {
        maxlen
    } else {
        chars.len()
    };
    let shown: Vec<char> = part(chars.as_slice(), 0, n);
    assert(shown@ =~= up_to(text@, maxlen as nat));
    string_of(shown.as_slice())
}

/// An identity in hexadecimal.
pub fn hex16(id: &Identity) -> (r: String)
    ensures
        r@ == hex(id@),
{
    hexify(id.as_slice(), 16)
}

/// The digits are `0` to `9` and `a` to `f`, in order.
pub proof fn lemma_digits(v: nat)
    requires
        v < 16,
    ensures
        digit(v) == seq![
            '0',
            '1',
            '2',
            '3',
            '4',
            '5',
            '6',
            '7',
            '8',
            '9',
            'a',
            'b',
            'c',
            'd',
            'e',
            'f',
        ][v as int],
{
}

/// Byte `i` is shown as its high digit and then its low one, at twice its place.
pub proof fn lemma_hex_at(data: Seq<u8>, i: int)
    requires
        0 <= i < data.len(),
    ensures
        hex(data).len() == 2 * data.len(),
        hex(data)[2 * i] == digit((data[i] / 16) as nat),
        hex(data)[2 * i + 1] == digit((data[i] % 16) as nat),
    decreases data.len(),
{
    let front = data.drop_last();
    if front.len() == 0 {
        assert(hex(front).len() == 0);
    } else if i < front.len() {
        lemma_hex_at(front, i);
        assert(front[i] == data[i]);
    } else {
        lemma_hex_at(front, 0);
    }
}

/// A limit cuts the end off, and only what is beyond it.
pub proof fn lemma_up_to<T>(s: Seq<T>, n: nat)
    ensures
        up_to(s, n).is_prefix_of(s),
        s.len() <= n ==> up_to(s, n) == s,
        s.len() >= n ==> up_to(s, n).len() == n,
{
    assert(up_to(s, n) =~= s.take(up_to(s, n).len() as int));
}

} // verus!
