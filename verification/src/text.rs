//! Text as sequences of characters: conversion from and to strings, search,
//! splitting at a separator, and trimming of whitespace.

use vstd::prelude::*;

verus! {

/// Whether a character is whitespace: whether it has the Unicode property
/// `White_Space`. These are the characters that the standard library trims.
pub open spec fn is_whitespace(c: char) -> bool {
    ||| '\u{9}' <= c <= '\u{d}'
    ||| c == ' '
    ||| c == '\u{85}'
    ||| c == '\u{a0}'
    ||| c == '\u{1680}'
    ||| '\u{2000}' <= c <= '\u{200a}'
    ||| c == '\u{2028}'
    ||| c == '\u{2029}'
    ||| c == '\u{202f}'
    ||| c == '\u{205f}'
    ||| c == '\u{3000}'
}

/// Whether a character is whitespace.
pub fn is_space(c: char) -> (r: bool)
    ensures
        r == is_whitespace(c),
{
    (c >= '\u{9}' && c <= '\u{d}') || c == ' ' || c == '\u{85}' || c == '\u{a0}' || c
        == '\u{1680}' || (c >= '\u{2000}' && c <= '\u{200a}') || c == '\u{2028}' || c
        == '\u{2029}' || c == '\u{202f}' || c == '\u{205f}' || c == '\u{3000}'
}

/// `String::push`: the character is appended at the end of the string and
/// nothing else changes.
#[verifier::external_body]
fn string_push(s: &mut String, c: char)
    ensures
        final(s)@ == old(s)@.push(c),
{
    s.push(c)
}

/// The views of a list of character vectors.
pub open spec fn rows(v: Seq<Vec<char>>) -> Seq<Seq<char>> {
    v.map_values(|r: Vec<char>| r@)
}

/// The views of a list of strings.
pub open spec fn texts(v: Seq<String>) -> Seq<Seq<char>> {
    v.map_values(|s: String| s@)
}

/// The first position of `s` that holds `c`, or the length of `s` where no
/// position does.
pub open spec fn index_of(s: Seq<char>, c: char) -> nat
    decreases s.len(),
{
    if s.len() == 0 || s[0] == c {
        0
    } else {
        1 + index_of(s.drop_first(), c)
    }
}

/// The pieces of `s` between the occurrences of `sep`. There is one piece
/// more than there are separators; a piece may be empty.
pub open spec fn split(s: Seq<char>, sep: char) -> Seq<Seq<char>>
    decreases s.len(),
{
    let at = index_of(s, sep);
    if at >= s.len() {
        seq![s]
    } else {
        seq![s.take(at as int)] + split(s.skip((at + 1) as int), sep)
    }
}

/// `s` without its leading whitespace.
pub open spec fn trim_start(s: Seq<char>) -> Seq<char>
    decreases s.len(),
{
    if s.len() > 0 && is_whitespace(s.first()) {
        trim_start(s.drop_first())
    } else {
        s
    }
}

/// `s` without its trailing whitespace.
pub open spec fn trim_end(s: Seq<char>) -> Seq<char>
    decreases s.len(),
{
    if s.len() > 0 && is_whitespace(s.last()) {
        trim_end(s.drop_last())
    } else {
        s
    }
}

/// `s` without its leading and trailing whitespace.
pub open spec fn trim(s: Seq<char>) -> Seq<char> {
    trim_end(trim_start(s))
}

/// Trimming at the start removes exactly the whitespace before the first
/// character that is none.
pub proof fn lemma_trim_start(s: Seq<char>, at: int)
    requires
        0 <= at <= s.len(),
        forall|j: int| 0 <= j < at ==> is_whitespace(s[j]),
        at < s.len() ==> !is_whitespace(s[at]),
    ensures
        trim_start(s) == s.skip(at),
    decreases at,
{
    if at == 0 {
        assert(s.skip(0) =~= s);
    } else {
        let rest = s.drop_first();
        assert forall|j: int| 0 <= j < at - 1 implies is_whitespace(rest[j]) by {
            assert(rest[j] == s[j + 1]);
        }
        lemma_trim_start(rest, at - 1);
        assert(rest.skip(at - 1) =~= s.skip(at));
    }
}

/// Trimming at the end leaves a text that starts with no whitespace its
/// first character.
pub proof fn lemma_trim_end_keeps_first(s: Seq<char>)
    requires
        s.len() > 0,
        !is_whitespace(s[0]),
    ensures
        trim_end(s).len() > 0,
        trim_end(s)[0] == s[0],
    decreases s.len(),
{
    if is_whitespace(s.last()) {
        lemma_trim_end_keeps_first(s.drop_last());
    }
}

/// What `index_of` finds: nothing before it holds `c`, and it holds `c`
/// unless it is the length.
pub proof fn lemma_index_of(s: Seq<char>, c: char)
    ensures
        index_of(s, c) <= s.len(),
        index_of(s, c) < s.len() ==> s[index_of(s, c) as int] == c,
        forall|j: int| 0 <= j < index_of(s, c) ==> s[j] != c,
    decreases s.len(),
{
    if !(s.len() == 0 || s[0] == c) {
        let rest = s.drop_first();
        lemma_index_of(rest, c);
        assert forall|j: int| 0 <= j < index_of(s, c) implies s[j] != c by {
            if j > 0 {
                assert(s[j] == rest[j - 1]);
            }
        }
    }
}

/// A position with nothing equal to `c` before it, which holds `c` or is
/// the length, is what `index_of` finds.
pub proof fn lemma_index_of_unique(s: Seq<char>, c: char, at: int)
    requires
        0 <= at <= s.len(),
        forall|j: int| 0 <= j < at ==> s[j] != c,
        at < s.len() ==> s[at] == c,
    ensures
        index_of(s, c) == at,
    decreases s.len(),
{
    if at > 0 {
        let rest = s.drop_first();
        assert forall|j: int| 0 <= j < at - 1 implies rest[j] != c by {
            assert(rest[j] == s[j + 1]);
        }
        lemma_index_of_unique(rest, c, at - 1);
    }
}

/// The characters of a string.
pub fn chars_of(s: &str) -> (out: Vec<char>)
    ensures
        out@ == s@,
{
    let mut out: Vec<char> = Vec::new();
    let chars = s.chars();
    for c in it: chars
        invariant
            it.seq() == s@,
            out@ == s@.take(it.index()),
    {
        out.push(c);
    }
    out
}

/// The string made of the characters of `chars` from `from` up to `to`.
pub fn string_of(chars: &Vec<char>, from: usize, to: usize) -> (out: String)
    requires
        from <= to <= chars.len(),
    ensures
        out@ == chars@.subrange(from as int, to as int),
{
    let mut out = String::new();
    let mut i: usize = from;
    while i < to
        invariant
            from <= i <= to <= chars.len(),
            out@ == chars@.subrange(from as int, i as int),
        decreases to - i,
    {
        string_push(&mut out, chars[i]);
        i = i + 1;
    }
    out
}

/// Appends the characters of `chars` to `out`.
pub fn push_chars(out: &mut String, chars: &Vec<char>)
    ensures
        final(out)@ == old(out)@ + chars@,
{
    let mut i: usize = 0;
    proof {
        assert(out@ =~= old(out)@ + chars@.take(0));
    }
    while i < chars.len()
        invariant
            i <= chars.len(),
            out@ == old(out)@ + chars@.take(i as int),
        decreases chars.len() - i,
    {
        string_push(out, chars[i]);
        proof {
            assert(chars@.take(i + 1) =~= chars@.take(i as int).push(chars[i as int]));
            assert(out@ =~= old(out)@ + chars@.take(i + 1));
        }
        i = i + 1;
    }
    proof {
        assert(chars@.take(chars.len() as int) =~= chars@);
    }
}

/// A copy of the characters of `chars` from `from` up to `to`.
pub fn copy_range(chars: &Vec<char>, from: usize, to: usize) -> (out: Vec<char>)
    requires
        from <= to <= chars.len(),
    ensures
        out@ == chars@.subrange(from as int, to as int),
{
    let mut out: Vec<char> = Vec::new();
    let mut i: usize = from;
    while i < to
        invariant
            from <= i <= to <= chars.len(),
            out@ == chars@.subrange(from as int, i as int),
        decreases to - i,
    {
        out.push(chars[i]);
        i = i + 1;
    }
    out
}

/// Whether two strings hold the same characters.
pub fn same_text(a: &str, b: &str) -> (r: bool)
    ensures
        r == (a@ == b@),
{
    let left = chars_of(a);
    let right = chars_of(b);
    if left.len() != right.len() {
        return false;
    }
    let mut i: usize = 0;
    while i < left.len()
        invariant
            i <= left.len(),
            left.len() == right.len(),
            left@ == a@,
            right@ == b@,
            forall|j: int| 0 <= j < i ==> left[j] == right[j],
        decreases left.len() - i,
    {
        if left[i] != right[i] {
            return false;
        }
        i = i + 1;
    }
    assert(left@ =~= right@);
    true
}

/// The first position at or after `from`, and before `to`, that holds `c`;
/// `to` where there is none.
pub fn find(chars: &Vec<char>, c: char, from: usize, to: usize) -> (at: usize)
    requires
        from <= to <= chars.len(),
    ensures
        from <= at <= to,
        at == from + index_of(chars@.subrange(from as int, to as int), c),
{
    let mut at: usize = from;
    while at < to && chars[at] != c
        invariant
            from <= at <= to <= chars.len(),
            forall|j: int| from <= j < at ==> chars[j] != c,
        decreases to - at,
    {
        at = at + 1;
    }
    proof {
        lemma_index_of_unique(chars@.subrange(from as int, to as int), c, at - from);
    }
    at
}

/// The pieces of `chars[from..to]` between the occurrences of `sep`.
pub fn split_range(chars: &Vec<char>, sep: char, from: usize, to: usize) -> (parts: Vec<Vec<char>>)
    requires
        from <= to <= chars.len(),
    ensures
        rows(parts@) == split(chars@.subrange(from as int, to as int), sep),
{
    let ghost whole = chars@.subrange(from as int, to as int);
    let mut parts: Vec<Vec<char>> = Vec::new();
    let mut start: usize = from;
    let mut done: bool = false;
    proof {
        assert(rows(parts@) =~= Seq::<Seq<char>>::empty());
    }
    while !done
        invariant
            from <= start <= to <= chars.len(),
            whole == chars@.subrange(from as int, to as int),
            !done ==> split(whole, sep) == rows(parts@) + split(
                chars@.subrange(start as int, to as int),
                sep,
            ),
            done ==> split(whole, sep) == rows(parts@),
        decreases to - start + (if done { 0int } else { 1int }),
    {
        let ghost tail = chars@.subrange(start as int, to as int);
        let ghost before = rows(parts@);
        let at = find(chars, sep, start, to);
        let piece = copy_range(chars, start, at);
        proof {
            lemma_index_of(tail, sep);
            assert(piece@ =~= tail.take(at - start));
        }
        parts.push(piece);
        proof {
            assert(rows(parts@) =~= before.push(piece@));
        }
        if at < to {
            proof {
                assert(tail.skip(at - start + 1) =~= chars@.subrange(at + 1, to as int));
                assert(split(tail, sep) == seq![piece@] + split(
                    chars@.subrange(at + 1, to as int),
                    sep,
                ));
                assert(before + (seq![piece@] + split(chars@.subrange(at + 1, to as int), sep))
                    =~= before.push(piece@) + split(chars@.subrange(at + 1, to as int), sep));
            }
            start = at + 1;
        } else {
            proof {
                assert(piece@ =~= tail);
                assert(split(tail, sep) == seq![tail]);
                assert(before + seq![tail] =~= before.push(piece@));
            }
            done = true;
        }
    }
    parts
}

/// The pieces of `chars` between the occurrences of `sep`.
pub fn split_chars(chars: &Vec<char>, sep: char) -> (parts: Vec<Vec<char>>)
    ensures
        rows(parts@) == split(chars@, sep),
{
    proof {
        assert(chars@.subrange(0, chars.len() as int) =~= chars@);
    }
    split_range(chars, sep, 0, chars.len())
}

/// Where the trimmed text lies: `chars[from..to]` is `chars` without its
/// leading and trailing whitespace.
pub fn trim_bounds(chars: &Vec<char>) -> (bounds: (usize, usize))
    ensures
        bounds.0 <= bounds.1 <= chars.len(),
        chars@.subrange(bounds.0 as int, bounds.1 as int) == trim(chars@),
{
    let len = chars.len();
    let mut from: usize = 0;
    proof {
        assert(chars@.subrange(0, len as int) =~= chars@);
    }
    while from < len && is_space(chars[from])
        invariant
            from <= len == chars.len(),
            trim_start(chars@) == trim_start(chars@.subrange(from as int, len as int)),
        decreases len - from,
    {
        proof {
            let here = chars@.subrange(from as int, len as int);
            assert(here.drop_first() =~= chars@.subrange(from + 1, len as int));
        }
        from = from + 1;
    }
    let ghost started = chars@.subrange(from as int, len as int);
    assert(trim_start(chars@) == started);
    let mut to: usize = len;
    while from < to && is_space(chars[to - 1])
        invariant
            from <= to <= len == chars.len(),
            started == chars@.subrange(from as int, len as int),
            trim_end(started) == trim_end(chars@.subrange(from as int, to as int)),
        decreases to - from,
    {
        proof {
            let here = chars@.subrange(from as int, to as int);
            assert(here.drop_last() =~= chars@.subrange(from as int, to - 1));
        }
        to = to - 1;
    }
    (from, to)
}

} // verus!
