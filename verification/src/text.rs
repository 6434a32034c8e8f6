//! Character-level text operations on which the script language is built:
//! whitespace trimming, prefixes, searching, and splitting into lines.

use vstd::prelude::*;

verus! {

broadcast use vstd::string::group_string_axioms;

/// Unicode `White_Space`, the set of characters that `char::is_whitespace`
/// documents.
pub open spec fn is_space(c: char) -> bool {
    ||| '\u{9}' <= c <= '\u{d}'
    ||| c == ' '
    ||| c == '\u{85}'
    ||| c == '\u{a0}'
    ||| c == '\u{1680}'
    ||| '\u{2000}' <= c <= '\u{200a}'
    ||| c == '\u{2028}'
    ||| c == '\u{2029}'
    ||| c == '\u{202f}'
    ||| c == '\u{205f}'
    ||| c == '\u{3000}'
}

/// `s` without its leading whitespace.
pub open spec fn trim_start(s: Seq<char>) -> Seq<char>
    decreases s.len(),
{
    if s.len() > 0 && is_space(s[0]) {
        trim_start(s.drop_first())
    } else {
        s
    }
}

/// `s` without its trailing whitespace.
pub open spec fn trim_end(s: Seq<char>) -> Seq<char>
    decreases s.len(),
{
    if s.len() > 0 && is_space(s.last()) {
        trim_end(s.drop_last())
    } else {
        s
    }
}

/// `s` without leading and trailing whitespace.
pub open spec fn trim(s: Seq<char>) -> Seq<char> {
    trim_end(trim_start(s))
}

/// `s` without any run of `c` at its end.
pub open spec fn strip_end(s: Seq<char>, c: char) -> Seq<char>
    decreases s.len(),
{
    if s.len() > 0 && s.last() == c {
        strip_end(s.drop_last(), c)
    } else {
        s
    }
}

/// `s` begins with `p`.
pub open spec fn starts_with(s: Seq<char>, p: Seq<char>) -> bool {
    p.len() <= s.len() && s.take(p.len() as int) == p
}

/// `p` occurs in `s` at position `i`.
pub open spec fn occurs_at(s: Seq<char>, p: Seq<char>, i: int) -> bool {
    0 <= i && i + p.len() <= s.len() && s.subrange(i, i + p.len()) == p
}

/// The first position at or after `i` where `p` occurs in `s`.
pub open spec fn find_from(s: Seq<char>, p: Seq<char>, i: int) -> Option<int>
    decreases s.len() + 1 - i,
{
    if i < 0 || i + p.len() > s.len() {
        None
    } else if occurs_at(s, p, i) {
        Some(i)
    } else {
        find_from(s, p, i + 1)
    }
}

/// The first position where `p` occurs in `s`.
pub open spec fn find(s: Seq<char>, p: Seq<char>) -> Option<int> {
    find_from(s, p, 0)
}

/// The text after the first occurrence of `p` in `s`.
pub open spec fn after(s: Seq<char>, p: Seq<char>) -> Option<Seq<char>> {
    match find(s, p) {
        Some(i) => Some(s.skip(i + p.len())),
        None => None,
    }
}

/// The text before the first occurrence of `p` in `s`.
pub open spec fn before(s: Seq<char>, p: Seq<char>) -> Option<Seq<char>> {
    match find(s, p) {
        Some(i) => Some(s.take(i)),
        None => None,
    }
}

/// The lines of `s` from the one that starts at `start`, with `start..i`
/// already known to hold no line feed.
pub open spec fn lines_from(s: Seq<char>, start: int, i: int) -> Seq<Seq<char>>
    decreases s.len() - i,
{
    if i >= s.len() {
        seq![s.subrange(start, s.len() as int)]
    } else if s[i] == '\n' {
        seq![s.subrange(start, i)] + lines_from(s, i + 1, i + 1)
    } else {
        lines_from(s, start, i + 1)
    }
}

/// The pieces of `s` between line feeds.
pub open spec fn split_lines(s: Seq<char>) -> Seq<Seq<char>> {
    lines_from(s, 0, 0)
}

/// The characters of a string slice, in order.
pub fn chars_of(s: &str) -> (v: Vec<char>)
    ensures
        v@ == s@,
{
    let mut v: Vec<char> = Vec::new();
    for c in it: s.chars()
        invariant
            v@ == it.seq().take(it.index() as int),
            it.seq() == s@,
    {
        v.push(c);
    }
    v
}

/// Calls `String::push`, which std documents as appending the character to
/// the end of the string; the contract claims exactly that of the string's
/// characters.
#[verifier::external_body]
pub(crate) fn push_char(s: &mut String, c: char)
    ensures
        final(s)@ == old(s)@.push(c),
{
    s.push(c);
}

/// A string holding the given characters.
pub fn string_of(chars: &[char]) -> (s: String)
    ensures
        s@ == chars@,
{
    let mut s = String::new();
    let mut i: usize = 0;
    while i < chars.len()
        invariant
            i <= chars.len(),
            s@ == chars@.take(i as int),
        decreases chars.len() - i,
    {
        push_char(&mut s, chars[i]);
        proof {
            assert(chars@.take(i + 1) == chars@.take(i as int).push(chars@[i as int]));
        }
        i = i + 1;
    }
    proof {
        assert(chars@.take(i as int) == chars@);
    }
    s
}

/// The characters `s[from..to]` as a vector of their own.
pub fn copy_range(s: &[char], from: usize, to: usize) -> (r: Vec<char>)
    requires
        from <= to <= s.len(),
    ensures
        r@ == s@.subrange(from as int, to as int),
{
    let mut r: Vec<char> = Vec::new();
    let mut i: usize = from;
    while i < to
        invariant
            from <= i <= to <= s.len(),
            r@ == s@.subrange(from as int, i as int),
        decreases to - i,
    {
        r.push(s[i]);
        proof {
            assert(s@.subrange(from as int, i + 1) == s@.subrange(from as int, i as int).push(
                s@[i as int],
            ));
        }
        i = i + 1;
    }
    r
}

/// Whether `c` is whitespace.
pub fn is_space_char(c: char) -> (r: bool)
    ensures
        r == is_space(c),
{
    ('\u{9}' <= c && c <= '\u{d}') || c == ' ' || c == '\u{85}' || c == '\u{a0}' || c
        == '\u{1680}' || ('\u{2000}' <= c && c <= '\u{200a}') || c == '\u{2028}' || c
        == '\u{2029}' || c == '\u{202f}' || c == '\u{205f}' || c == '\u{3000}'
}

/// `s` without leading and trailing whitespace.
pub fn trim_chars(s: &[char]) -> (r: Vec<char>)
    ensures
        r@ == trim(s@),
{
    let mut lo: usize = 0;
    proof {
        assert(s@.skip(0) == s@);
    }
    while lo < s.len() && is_space_char(s[lo])
        invariant
            lo <= s.len(),
            trim_start(s@) == trim_start(s@.skip(lo as int)),
        decreases s.len() - lo,
    {
        proof {
            assert(s@.skip(lo as int).drop_first() == s@.skip(lo + 1));
        }
        lo = lo + 1;
    }
    proof {
        assert(trim_start(s@) == s@.skip(lo as int));
        assert(s@.skip(lo as int) == s@.subrange(lo as int, s.len() as int));
    }
    let mut hi: usize = s.len();
    while hi > lo && is_space_char(s[hi - 1])
        invariant
            lo <= hi <= s.len(),
            trim(s@) == trim_end(s@.subrange(lo as int, hi as int)),
        decreases hi,
    {
        proof {
            assert(s@.subrange(lo as int, hi as int).drop_last() == s@.subrange(
                lo as int,
                hi - 1,
            ));
        }
        hi = hi - 1;
    }
    copy_range(s, lo, hi)
}

/// `s` without any run of `c` at its end.
pub fn strip_end_chars(s: &[char], c: char) -> (r: Vec<char>)
    ensures
        r@ == strip_end(s@, c),
{
    let mut hi: usize = s.len();
    proof {
        assert(s@.take(s.len() as int) == s@);
    }
    while hi > 0 && s[hi - 1] == c
        invariant
            hi <= s.len(),
            strip_end(s@, c) == strip_end(s@.take(hi as int), c),
        decreases hi,
    {
        proof {
            assert(s@.take(hi as int).drop_last() == s@.take(hi - 1));
        }
        hi = hi - 1;
    }
    proof {
        assert(s@.take(hi as int) == s@.subrange(0, hi as int));
    }
    copy_range(s, 0, hi)
}

/// Whether `p` occurs in `s` at position `i`.
pub fn occurs_at_exec(s: &[char], p: &[char], i: usize) -> (r: bool)
    ensures
        r == occurs_at(s@, p@, i as int),
{
    if i > s.len() || p.len() > s.len() - i {
        return false;
    }
    let mut k: usize = 0;
    while k < p.len()
        invariant
            i + p.len() <= s.len(),
            k <= p.len(),
            forall|j: int| 0 <= j < k ==> s@[i + j] == p@[j],
        decreases p.len() - k,
    {
        if s[i + k] != p[k] {
            proof {
                assert(s@.subrange(i as int, i + p.len())[k as int] != p@[k as int]);
            }
            return false;
        }
        k = k + 1;
    }
    proof {
        assert(s@.subrange(i as int, i + p.len()) == p@);
    }
    true
}

/// Whether `s` begins with `p`.
pub fn starts_with_exec(s: &[char], p: &[char]) -> (r: bool)
    ensures
        r == starts_with(s@, p@),
{
    let r = occurs_at_exec(s, p, 0);
    proof {
        if p.len() <= s.len() {
            assert(s@.subrange(0, p.len() as int) == s@.take(p.len() as int));
        }
    }
    r
}

/// The first position where `p` occurs in `s`.
pub fn find_exec(s: &[char], p: &[char]) -> (r: Option<usize>)
    ensures
        r matches Some(i) ==> find(s@, p@) == Some(i as int) && occurs_at(s@, p@, i as int),
        r is None ==> find(s@, p@) is None,
{
    if p.len() > s.len() {
        return None;
    }
    let last: usize = s.len() - p.len();
    let mut i: usize = 0;
    while i <= last
        invariant
            last == s.len() - p.len(),
            i <= last + 1,
            find(s@, p@) == find_from(s@, p@, i as int),
        decreases last + 1 - i,
    {
        if occurs_at_exec(s, p, i) {
            return Some(i);
        }
        if i == last {
            proof {
                assert(find_from(s@, p@, i + 1) is None);
            }
            return None;
        }
        i = i + 1;
    }
    None
}

/// The pieces of `s` between line feeds.
pub fn split_lines_exec(s: &[char]) -> (r: Vec<Vec<char>>)
    ensures
        r@.map_values(|l: Vec<char>| l@) == split_lines(s@),
{
    let mut r: Vec<Vec<char>> = Vec::new();
    let mut start: usize = 0;
    let mut i: usize = 0;
    while i < s.len()
        invariant
            start <= i <= s.len(),
            split_lines(s@) == r@.map_values(|l: Vec<char>| l@) + lines_from(
                s@,
                start as int,
                i as int,
            ),
        decreases s.len() - i,
    {
        if s[i] == '\n' {
            let piece = copy_range(s, start, i);
            let ghost before = r@.map_values(|l: Vec<char>| l@);
            r.push(piece);
            proof {
                assert(r@.map_values(|l: Vec<char>| l@) == before.push(piece@));
                assert(before + lines_from(s@, start as int, i as int) == before.push(piece@)
                    + lines_from(s@, i + 1, i + 1));
            }
            start = i + 1;
        }
        i = i + 1;
    }
    let piece = copy_range(s, start, s.len());
    let ghost before = r@.map_values(|l: Vec<char>| l@);
    r.push(piece);
    proof {
        assert(r@.map_values(|l: Vec<char>| l@) == before.push(piece@));
    }
    r
}

/// `a` followed by `b`.
pub fn concat(a: &[char], b: &[char]) -> (r: Vec<char>)
    ensures
        r@ == a@ + b@,
{
    let mut r = copy_range(a, 0, a.len());
    let mut i: usize = 0;
    proof {
        assert(a@.subrange(0, a.len() as int) == a@);
        assert(b@.take(0) == Seq::<char>::empty());
    }
    while i < b.len()
        invariant
            i <= b.len(),
            r@ == a@ + b@.take(i as int),
        decreases b.len() - i,
    {
        r.push(b[i]);
        proof {
            assert(b@.take(i + 1) == b@.take(i as int).push(b@[i as int]));
        }
        i = i + 1;
    }
    proof {
        assert(b@.take(i as int) == b@);
    }
    r
}

/// The text after the first occurrence of `p` in `s`.
pub fn after_exec(s: &[char], p: &[char]) -> (r: Option<Vec<char>>)
    ensures
        r matches Some(v) ==> after(s@, p@) == Some(v@),
        r is None ==> after(s@, p@) is None,
{
    match find_exec(s, p) {
        Some(i) => {
            let plen = p.len();
            let slen = s.len();
            let v = copy_range(s, i + plen, slen);
            proof {
                assert(s@.skip(i + p.len()) == s@.subrange(i + p.len(), s.len() as int));
            }
            Some(v)
        },
        None => None,
    }
}

/// The text before the first occurrence of `p` in `s`.
pub fn before_exec(s: &[char], p: &[char]) -> (r: Option<Vec<char>>)
    ensures
        r matches Some(v) ==> before(s@, p@) == Some(v@),
        r is None ==> before(s@, p@) is None,
{
    match find_exec(s, p) {
        Some(i) => {
            let v = copy_range(s, 0, i);
            proof {
                assert(s@.take(i as int) == s@.subrange(0, i as int));
            }
            Some(v)
        },
        None => None,
    }
}

/// With no line feed from `i` on, the lines from `start` are one line.
pub proof fn lemma_lines_tail(s: Seq<char>, start: int, i: int)
    requires
        0 <= start <= i <= s.len(),
        forall|j: int| i <= j < s.len() ==> s[j] != '\n',
    ensures
        lines_from(s, start, i) == seq![s.subrange(start, s.len() as int)],
    decreases s.len() - i,
{
    if i < s.len() {
        lemma_lines_tail(s, start, i + 1);
    }
}

/// Text with no line feed is one line.
pub proof fn lemma_one_line(s: Seq<char>)
    requires
        !s.contains('\n'),
    ensures
        split_lines(s) == seq![s],
{
    assert forall|j: int| 0 <= j < s.len() implies s[j] != '\n' by {
        if s[j] == '\n' {
            assert(s.contains('\n'));
        }
    }
    lemma_lines_tail(s, 0, 0);
    assert(s.subrange(0, s.len() as int) == s);
}

/// The lines of `a`, a line feed and `b` (which holds none) are the lines of
/// `a` followed by `b`, from any position within `a`.
proof fn lemma_lines_join_from(a: Seq<char>, b: Seq<char>, start: int, i: int)
    requires
        0 <= start <= i <= a.len(),
        !b.contains('\n'),
    ensures
        lines_from(a + seq!['\n'] + b, start, i) == lines_from(a, start, i) + seq![b],
    decreases a.len() - i,
{
    let s = a + seq!['\n'] + b;
    if i == a.len() {
        assert(s[i] == '\n');
        assert forall|j: int| i + 1 <= j < s.len() implies s[j] != '\n' by {
            assert(s[j] == b[j - i - 1]);
            if s[j] == '\n' {
                assert(b.contains('\n'));
            }
        }
        lemma_lines_tail(s, i + 1, i + 1);
        assert(s.subrange(i + 1, s.len() as int) == b);
        assert(s.subrange(start, i) == a.subrange(start, a.len() as int));
    } else {
        assert(s[i] == a[i]);
        lemma_lines_join_from(a, b, i + 1, i + 1);
        lemma_lines_join_from(a, b, start, i + 1);
        if a[i] == '\n' {
            assert(s.subrange(start, i) == a.subrange(start, i));
            assert(seq![a.subrange(start, i)] + lines_from(a, i + 1, i + 1) + seq![b] == seq![
                a.subrange(start, i),
            ] + (lines_from(a, i + 1, i + 1) + seq![b]));
        }
    }
}

/// Joining `a` and a line `b` by a line feed adds `b` as one more line.
pub proof fn lemma_lines_join(a: Seq<char>, b: Seq<char>)
    requires
        !b.contains('\n'),
    ensures
        split_lines(a + seq!['\n'] + b) == split_lines(a) + seq![b],
{
    lemma_lines_join_from(a, b, 0, 0);
}

/// The decimal digit `d` as a character.
pub open spec fn digit(d: int) -> char {
    (d + 48) as char
}

/// The decimal digits of `n`.
pub open spec fn decimal(n: nat) -> Seq<char>
    decreases n,
{
    if n < 10 {
        seq![digit(n as int)]
    } else {
        decimal(n / 10).push(digit((n % 10) as int))
    }
}

/// Writes the decimal digits of `n` after `out`.
pub fn push_decimal(out: &mut Vec<char>, n: usize)
    ensures
        final(out)@ == old(out)@ + decimal(n as nat),
    decreases n,
{
    if n >= 10 {
        push_decimal(out, n / 10);
    }
    let d: u8 = (n % 10) as u8;
    let c: char = (48u8 + d) as char;
    proof {
        assert(c == digit((n % 10) as int));
    }
    out.push(c);
}

} // verus!
