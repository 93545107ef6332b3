//! Text as sequences of characters: searching, splitting, trimming, lower case.

use vstd::prelude::*;

verus! {

/// `String::push`: appends the character.
pub assume_specification [String::push](s: &mut String, ch: char)
    ensures
        final(s)@ == old(s)@.push(ch),
;

/// Where `needle` first stands in `s` at or behind `from`.
pub open spec fn find_from<T>(s: Seq<T>, needle: Seq<T>, from: nat) -> Option<nat>
    decreases s.len() - from,
{
    if from + needle.len() > s.len() || from >= s.len() {
        None
    } else if s.subrange(from as int, (from + needle.len()) as int) == needle {
        Some(from)
    } else {
        find_from(s, needle, from + 1)
    }
}

/// Where `needle` first stands in `s`.
pub open spec fn find<T>(s: Seq<T>, needle: Seq<T>) -> Option<nat> {
    find_from(s, needle, 0)
}

/// `needle` stands in `s` at `at`.
pub open spec fn stands_at<T>(s: Seq<T>, needle: Seq<T>, at: int) -> bool {
    0 <= at && at + needle.len() <= s.len() && s.subrange(at, at + needle.len()) == needle
}

/// A needle that is not empty is found where it first stands, and not found if it
/// stands nowhere.
pub proof fn lemma_find_from<T>(s: Seq<T>, needle: Seq<T>, from: nat)
    requires
        needle.len() > 0,
    ensures
        match find_from(s, needle, from) {
            Some(at) => from <= at && stands_at(s, needle, at as int) && forall|j: int|
                from <= j < at ==> !#[trigger] stands_at(s, needle, j),
            None => forall|j: int| from <= j ==> !#[trigger] stands_at(s, needle, j),
        },
    decreases s.len() - from,
{
    if from + needle.len() > s.len() || from >= s.len() {
    } else if s.subrange(from as int, (from + needle.len()) as int) == needle {
        assert(stands_at(s, needle, from as int));
    } else {
        lemma_find_from(s, needle, from + 1);
        assert(!stands_at(s, needle, from as int));
    }
}

/// `s` cut at every place where `sep` stands, reading from the left.
pub open spec fn split<T>(s: Seq<T>, sep: Seq<T>) -> Seq<Seq<T>>
    decreases s.len(),
{
    if sep.len() == 0 {
        seq![s]
    } else {
        match find(s, sep) {
            None => seq![s],
            Some(at) => if at + sep.len() <= s.len() {
                seq![s.take(at as int)] + split(s.skip((at + sep.len()) as int), sep)
            } else {
                seq![s]
            },
        }
    }
}

/// What stands before and behind the first `sep` in `s`.
pub open spec fn split_once<T>(s: Seq<T>, sep: T) -> Option<(Seq<T>, Seq<T>)> {
    match find(s, seq![sep]) {
        None => None,
        Some(at) => Some((s.take(at as int), s.skip(at as int + 1))),
    }
}

/// A separator that is found lies within the text.
pub proof fn lemma_find_bound<T>(s: Seq<T>, needle: Seq<T>, from: nat)
    ensures
        find_from(s, needle, from) matches Some(at) ==> from <= at < s.len() && at + needle.len()
            <= s.len(),
    decreases s.len() - from,
{
    if from + needle.len() > s.len() || from >= s.len() {
    } else if s.subrange(from as int, (from + needle.len()) as int) == needle {
    } else {
        lemma_find_bound(s, needle, from + 1);
    }
}

/// The `White_Space` characters of Unicode.
pub open spec fn is_space(c: char) -> bool {
    let n = c as u32;
    ||| 0x09 <= n <= 0x0d
    ||| n == 0x20
    ||| n == 0x85
    ||| n == 0xa0
    ||| n == 0x1680
    ||| 0x2000 <= n <= 0x200a
    ||| n == 0x2028
    ||| n == 0x2029
    ||| n == 0x202f
    ||| n == 0x205f
    ||| n == 0x3000
}

fn space(c: char) -> (r: bool)
    ensures
        r == is_space(c),
{
    let n: u32 = c as u32;
    (0x09 <= n && n <= 0x0d) || n == 0x20 || n == 0x85 || n == 0xa0 || n == 0x1680 || (0x2000 <= n
        && n <= 0x200a) || n == 0x2028 || n == 0x2029 || n == 0x202f || n == 0x205f || n == 0x3000
}

/// `s` without the white space that it starts with.
pub open spec fn trim_start(s: Seq<char>) -> Seq<char>
    decreases s.len(),
{
    if s.len() > 0 && is_space(s[0]) {
        trim_start(s.skip(1))
    } else {
        s
    }
}

/// `s` without the white space that it ends with.
pub open spec fn trim_end(s: Seq<char>) -> Seq<char>
    decreases s.len(),
{
    if s.len() > 0 && is_space(s.last()) {
        trim_end(s.drop_last())
    } else {
        s
    }
}

/// `s` without the white space around it.
pub open spec fn trim(s: Seq<char>) -> Seq<char> {
    trim_end(trim_start(s))
}

/// `c` in lower case, if it is an ASCII letter.
pub open spec fn lower(c: char) -> char {
    if 'A' <= c <= 'Z' {
        (c as u8 + 32) as u8 as char
    } else {
        c
    }
}

/// `s` with its ASCII letters in lower case.
pub open spec fn lowercase(s: Seq<char>) -> Seq<char> {
    s.map_values(|c: char| lower(c))
}

// What these are -------------------------------------------------------------

/// `parts` with `sep` between them.
pub open spec fn join<T>(parts: Seq<Seq<T>>, sep: Seq<T>) -> Seq<T>
    decreases parts.len(),
{
    if parts.len() == 0 {
        Seq::empty()
    } else if parts.len() == 1 {
        parts[0]
    } else {
        parts[0] + sep + join(parts.skip(1), sep)
    }
}

/// The parts of a text, joined by the separator, are the text, and the separator stands in
/// none of them.
pub proof fn lemma_split_joins<T>(s: Seq<T>, sep: Seq<T>)
    requires
        sep.len() > 0,
    ensures
        split(s, sep).len() > 0,
        join(split(s, sep), sep) == s,
        forall|i: int, j: int|
            0 <= i < split(s, sep).len() ==> !#[trigger] stands_at(split(s, sep)[i], sep, j),
    decreases s.len(),
{
    lemma_find_from(s, sep, 0);
    let parts = split(s, sep);
    match find(s, sep) {
        None => {
            assert forall|i: int, j: int| 0 <= i < parts.len() implies !#[trigger] stands_at(
                parts[i],
                sep,
                j,
            ) by {
                assert(parts[i] == s);
                if j >= 0 {
                    assert(!stands_at(s, sep, j));
                }
            }
        },
        Some(at) => {
            let first = s.take(at as int);
            let rest = s.skip((at + sep.len()) as int);
            lemma_split_joins(rest, sep);
            assert(stands_at(s, sep, at as int));
            assert(parts =~= seq![first] + split(rest, sep));
            assert(parts.skip(1) =~= split(rest, sep));
            assert(first + sep + rest =~= s);
            assert forall|i: int, j: int| 0 <= i < parts.len() implies !#[trigger] stands_at(
                parts[i],
                sep,
                j,
            ) by {
                if i == 0 {
                    if stands_at(first, sep, j) {
                        assert(s.subrange(j, j + sep.len()) =~= first.subrange(j, j + sep.len()));
                        assert(stands_at(s, sep, j));
                    }
                } else {
                    assert(parts[i] == split(rest, sep)[i - 1]);
                    assert(!stands_at(split(rest, sep)[i - 1], sep, j));
                }
            }
        },
    }
}

/// A text is cut once at its first separator, if it has one.
pub proof fn lemma_split_once_is<T>(s: Seq<T>, sep: T)
    ensures
        match split_once(s, sep) {
            Some((a, b)) => s == a + seq![sep] + b && !a.contains(sep),
            None => !s.contains(sep),
        },
{
    lemma_find_from(s, seq![sep], 0);
    match find(s, seq![sep]) {
        None => {
            if s.contains(sep) {
                let j = s.index_of(sep);
                assert(s.subrange(j, j + 1) =~= seq![sep]);
                assert(stands_at(s, seq![sep], j));
            }
        },
        Some(at) => {
            assert(stands_at(s, seq![sep], at as int));
            assert(s.subrange(at as int, at as int + 1)[0] == sep);
            let a = s.take(at as int);
            assert(s =~= a + seq![sep] + s.skip(at as int + 1));
            if a.contains(sep) {
                let j = a.index_of(sep);
                assert(s.subrange(j, j + 1) =~= seq![sep]);
                assert(stands_at(s, seq![sep], j));
            }
        },
    }
}

proof fn lemma_trim_start_is(s: Seq<char>)
    ensures
        trim_start(s).len() <= s.len(),
        trim_start(s) == s.skip(s.len() - trim_start(s).len()),
        forall|i: int| 0 <= i < s.len() - trim_start(s).len() ==> is_space(#[trigger] s[i]),
        trim_start(s).len() > 0 ==> !is_space(trim_start(s)[0]),
    decreases s.len(),
{
    if s.len() > 0 && is_space(s[0]) {
        let rest = s.skip(1);
        lemma_trim_start_is(rest);
        assert forall|i: int| 0 <= i < s.len() - trim_start(s).len() implies is_space(
            #[trigger] s[i],
        ) by {
            if i > 0 {
                assert(s[i] == rest[i - 1]);
            }
        }
        assert(trim_start(s) =~= s.skip(s.len() - trim_start(s).len()));
    } else {
        assert(s.skip(0) =~= s);
    }
}

proof fn lemma_trim_end_is(s: Seq<char>)
    ensures
        trim_end(s).len() <= s.len(),
        trim_end(s) == s.take(trim_end(s).len() as int),
        forall|i: int| trim_end(s).len() <= i < s.len() ==> is_space(#[trigger] s[i]),
        trim_end(s).len() > 0 ==> !is_space(trim_end(s).last()),
    decreases s.len(),
{
    if s.len() > 0 && is_space(s.last()) {
        let rest = s.drop_last();
        lemma_trim_end_is(rest);
        assert forall|i: int| trim_end(s).len() <= i < s.len() implies is_space(
            #[trigger] s[i],
        ) by {
            if i < s.len() - 1 {
                assert(s[i] == rest[i]);
            }
        }
        assert(trim_end(s) =~= s.take(trim_end(s).len() as int));
    } else {
        assert(s.take(s.len() as int) =~= s);
    }
}

/// Trimming takes off white space in front and behind, all of it, and nothing else.
pub proof fn lemma_trim_is(s: Seq<char>)
    ensures
        exists|a: Seq<char>, b: Seq<char>|
            {
                &&& s == #[trigger] (a + trim(s) + b)
                &&& forall|i: int| 0 <= i < a.len() ==> is_space(#[trigger] a[i])
                &&& forall|i: int| 0 <= i < b.len() ==> is_space(#[trigger] b[i])
            },
        trim(s).len() > 0 ==> !is_space(trim(s)[0]) && !is_space(trim(s).last()),
{
    lemma_trim_start_is(s);
    let t = trim_start(s);
    lemma_trim_end_is(t);
    let a = s.take(s.len() - t.len());
    let b = t.skip(trim(s).len() as int);
    assert(a + trim(s) + b =~= s);
}

/// White space, among the ASCII characters, is the tab, the line breaks and the blank.
pub proof fn lemma_space_is(c: char)
    requires
        (c as u32) < 128,
    ensures
        is_space(c) <==> c == '\t' || c == '\n' || c == '\r' || c == ' ' || c as u32 == 11 || c
            as u32 == 12,
{
}

/// Lower case concerns the ASCII letters alone, one by one.
pub proof fn lemma_lowercase_is(s: Seq<char>, i: int)
    requires
        0 <= i < s.len(),
    ensures
        lowercase(s).len() == s.len(),
        65 <= s[i] as u32 <= 90 ==> lowercase(s)[i] as u32 == s[i] as u32 + 32,
        !(65 <= s[i] as u32 <= 90) ==> lowercase(s)[i] == s[i],
{
}

/// The characters of a string.
pub fn chars_of(s: &str) -> (r: Vec<char>)
    ensures
        r@ == s@,
{
    let mut out: Vec<char> = Vec::new();
    for c in it: s.chars()
        invariant
            it.seq() == s@,
            out@ == s@.take(it.index() as int),
    {
        out.push(c);
        assert(out@ =~= s@.take(it.index() as int + 1));
    }
    assert(out@ =~= s@);
    out
}

/// The string of some characters.
pub fn string_of(s: &[char]) -> (r: String)
    ensures
        r@ == s@,
{
    let mut out: String = String::new();
    let mut i: usize = 0;
    while i < s.len()
        invariant
            i <= s@.len(),
            out@ == s@.take(i as int),
        decreases s@.len() - i,
    {
        out.push(s[i]);
        i = i + 1;
        assert(out@ =~= s@.take(i as int));
    }
    assert(out@ =~= s@);
    out
}

/// Whether `a` and `b` hold the same characters.
pub fn same(a: &[char], b: &[char]) -> (r: bool)
    ensures
        r == (a@ == b@),
{
    if a.len() != b.len() {
        return false;
    }
    let mut i: usize = 0;
    while i < a.len()
        invariant
            i <= a@.len(),
            a@.len() == b@.len(),
            forall|j: int| 0 <= j < i ==> a@[j] == b@[j],
        decreases a@.len() - i,
    {
        if a[i] != b[i] {
            return false;
        }
        i = i + 1;
    }
    assert(a@ =~= b@);
    true
}

/// Whether the characters of `a` are those of `b`.
pub fn same_str(a: &[char], b: &str) -> (r: bool)
    ensures
        r == (a@ == b@),
{
    let chars: Vec<char> = chars_of(b);
    same(a, chars.as_slice())
}

/// Whether `s` starts with `prefix`.
pub fn starts_with(s: &[char], prefix: &str) -> (r: bool)
    ensures
        r == prefix@.is_prefix_of(s@),
{
    let p: Vec<char> = chars_of(prefix);
    if s.len() < p.len() {
        return false;
    }
    let mut i: usize = 0;
    while i < p.len()
        invariant
            i <= p@.len() <= s@.len(),
            p@ == prefix@,
            forall|j: int| 0 <= j < i ==> p@[j] == s@[j],
        decreases p@.len() - i,
    {
        if p[i] != s[i] {
            return false;
        }
        i = i + 1;
    }
    true
}

/// Where the pair `x y` first stands in `s`.
fn find_pair(s: &[char], x: char, y: char) -> (r: Option<usize>)
    ensures
        match r {
            Some(at) => find(s@, seq![x, y]) == Some(at as nat) && at + 2 <= s@.len(),
            None => find(s@, seq![x, y]) == None::<nat>,
        },
{
    let ghost sep = seq![x, y];
    let mut i: usize = 0;
    let len: usize = s.len();
    while i < len
        invariant
            i <= len,
            len == s@.len(),
            sep == seq![x, y],
            find(s@, sep) == find_from(s@, sep, i as nat),
        decreases len - i,
    {
        if len - i < 2 {
            return None;
        }
        if s[i] == x && s[i + 1] == y {
            assert(s@.subrange(i as int, i + 2) =~= sep);
            return Some(i);
        }
        assert(s@.subrange(i as int, i + 2)[0] == s@[i as int]);
        assert(s@.subrange(i as int, i + 2)[1] == s@[i + 1]);
        i = i + 1;
    }
    None
}

/// Where `ch` first stands in `s`.
pub fn find_char(s: &[char], ch: char) -> (r: Option<usize>)
    ensures
        match r {
            Some(at) => find(s@, seq![ch]) == Some(at as nat) && at < s@.len(),
            None => find(s@, seq![ch]) == None::<nat>,
        },
{
    let ghost sep = seq![ch];
    let mut i: usize = 0;
    while i < s.len()
        invariant
            i <= s@.len(),
            sep == seq![ch],
            find(s@, sep) == find_from(s@, sep, i as nat),
        decreases s@.len() - i,
    {
        if s[i] == ch {
            assert(s@.subrange(i as int, i + 1) =~= sep);
            return Some(i);
        }
        assert(s@.subrange(i as int, i + 1)[0] == s@[i as int]);
        i = i + 1;
    }
    None
}

/// The characters of `s` from `from` up to `to`.
pub fn part(s: &[char], from: usize, to: usize) -> (r: Vec<char>)
    requires
        from <= to <= s@.len(),
    ensures
        r@ == s@.subrange(from as int, to as int),
{
    let mut out: Vec<char> = Vec::new();
    let mut i: usize = from;
    while i < to
        invariant
            from <= i <= to <= s@.len(),
            out@ == s@.subrange(from as int, i as int),
        decreases to - i,
    {
        out.push(s[i]);
        i = i + 1;
        assert(out@ =~= s@.subrange(from as int, i as int));
    }
    out
}

/// The views of the pieces of a split.
pub open spec fn views(v: Seq<Vec<char>>) -> Seq<Seq<char>> {
    v.map_values(|x: Vec<char>| x@)
}

/// The lines of `s`, which end in a carriage return and a line feed.
pub fn split_lines(s: &[char]) -> (r: Vec<Vec<char>>)
    ensures
        views(r@) == split(s@, seq!['\r', '\n']),
        r@.len() > 0,
{
    let ghost sep = seq!['\r', '\n'];
    let mut out: Vec<Vec<char>> = Vec::new();
    let mut rest: Vec<char> = part(s, 0, s.len());
    assert(rest@ =~= s@);
    assert(views(out@) + split(rest@, sep) =~= split(s@, sep));
    loop
        invariant
            sep == seq!['\r', '\n'],
            split(s@, sep) == views(out@) + split(rest@, sep),
        decreases rest@.len(),
    {
        match find_pair(rest.as_slice(), '\r', '\n') {
            None => {
                let ghost done = views(out@);
                assert(split(rest@, sep) == seq![rest@]);
                out.push(rest);
                assert(views(out@) =~= done.push(rest@));
                return out;
            },
            Some(at) => {
                let ghost done = views(out@);
                let ghost whole = rest@;
                let total: usize = rest.len();
                let piece: Vec<char> = part(rest.as_slice(), 0, at);
                rest = part(rest.as_slice(), at + 2, total);
                assert(piece@ =~= whole.take(at as int));
                assert(rest@ =~= whole.skip(at + 2));
                assert(split(whole, sep) == seq![piece@] + split(rest@, sep));
                out.push(piece);
                assert(views(out@) =~= done.push(piece@));
                assert(views(out@) + split(rest@, sep) =~= done + (seq![piece@] + split(
                    rest@,
                    sep,
                )));
            },
        }
    }
}

/// The pieces of `s` between the places where `ch` stands.
pub fn split_char(s: &[char], ch: char) -> (r: Vec<Vec<char>>)
    ensures
        views(r@) == split(s@, seq![ch]),
        r@.len() > 0,
{
    let ghost sep = seq![ch];
    let mut out: Vec<Vec<char>> = Vec::new();
    let mut rest: Vec<char> = part(s, 0, s.len());
    assert(rest@ =~= s@);
    assert(views(out@) + split(rest@, sep) =~= split(s@, sep));
    loop
        invariant
            sep == seq![ch],
            split(s@, sep) == views(out@) + split(rest@, sep),
        decreases rest@.len(),
    {
        match find_char(rest.as_slice(), ch) {
            None => {
                let ghost done = views(out@);
                assert(split(rest@, sep) == seq![rest@]);
                out.push(rest);
                assert(views(out@) =~= done.push(rest@));
                return out;
            },
            Some(at) => {
                let ghost done = views(out@);
                let ghost whole = rest@;
                let total: usize = rest.len();
                let piece: Vec<char> = part(rest.as_slice(), 0, at);
                rest = part(rest.as_slice(), at + 1, total);
                assert(piece@ =~= whole.take(at as int));
                assert(rest@ =~= whole.skip(at + 1));
                assert(split(whole, sep) == seq![piece@] + split(rest@, sep));
                out.push(piece);
                assert(views(out@) =~= done.push(piece@));
                assert(views(out@) + split(rest@, sep) =~= done + (seq![piece@] + split(
                    rest@,
                    sep,
                )));
            },
        }
    }
}

/// `s` without the white space around it.
pub fn trimmed(s: &[char]) -> (r: Vec<char>)
    ensures
        r@ == trim(s@),
{
    let len: usize = s.len();
    let mut from: usize = 0;
    assert(s@.skip(0) =~= s@);
    while from < len && space(s[from])
        invariant
            from <= len == s@.len(),
            trim_start(s@) == trim_start(s@.skip(from as int)),
        decreases len - from,
    {
        assert(s@.skip(from as int).skip(1) =~= s@.skip(from + 1));
        from = from + 1;
    }
    assert(trim_start(s@) == s@.skip(from as int));
    let mut to: usize = len;
    assert(s@.subrange(from as int, len as int) =~= s@.skip(from as int));
    while from < to && space(s[to - 1])
        invariant
            from <= to <= len == s@.len(),
            trim(s@) == trim_end(s@.subrange(from as int, to as int)),
        decreases to - from,
    {
        assert(s@.subrange(from as int, to as int).drop_last() =~= s@.subrange(
            from as int,
            to - 1,
        ));
        to = to - 1;
    }
    part(s, from, to)
}

/// `s` with its ASCII letters in lower case.
pub fn lowercased(s: &[char]) -> (r: Vec<char>)
    ensures
        r@ == lowercase(s@),
{
    let mut out: Vec<char> = Vec::new();
    let mut i: usize = 0;
    while i < s.len()
        invariant
            i <= s@.len(),
            out@.len() == i,
            forall|j: int| 0 <= j < i ==> out@[j] == lower(s@[j]),
        decreases s@.len() - i,
    {
        let c: char = s[i];
        if 'A' <= c && c <= 'Z' {
            out.push((c as u8 + 32) as char);
        } else {
            out.push(c);
        }
        i = i + 1;
    }
    assert(out@ =~= lowercase(s@));
    out
}

} // verus!
