//! Character classes and the few string operations the rest of the crate builds on.

use vstd::prelude::*;

verus! {

/// Whether a character beyond the ASCII range has the Unicode property `White_Space`,
/// as the standard library's tables record it. Only characters above U+007F are ever
/// looked up here.
pub uninterp spec fn unicode_white_space(c: char) -> bool;

/// Whether a character beyond the ASCII range has the Unicode property `Alphabetic`,
/// as the standard library's tables record it. Only characters above U+007F are ever
/// looked up here.
pub uninterp spec fn unicode_alphabetic(c: char) -> bool;

/// The characters that separate tokens: in ASCII the space and U+0009 to U+000D,
/// beyond ASCII whatever Unicode calls white space.
pub open spec fn is_white(c: char) -> bool {
    if c <= '\x7f' {
        c == ' ' || ('\x09' <= c && c <= '\x0d')
    } else {
        unicode_white_space(c)
    }
}

/// The characters that keywords are made of: in ASCII the letters, beyond ASCII
/// whatever Unicode calls alphabetic.
pub open spec fn is_letter(c: char) -> bool {
    if c <= '\x7f' {
        ('a' <= c && c <= 'z') || ('A' <= c && c <= 'Z')
    } else {
        unicode_alphabetic(c)
    }
}

/// The ten decimal digits.
pub open spec fn is_digit(c: char) -> bool {
    '0' <= c && c <= '9'
}

/// `char::is_whitespace`: true of the space and of U+0009 to U+000D; of no other ASCII
/// character; of a character above U+007F exactly when it has the property `White_Space`.
pub assume_specification[ char::is_whitespace ](c: char) -> (r: bool)
    ensures
        c <= '\x7f' ==> r == (c == ' ' || ('\x09' <= c && c <= '\x0d')),
        c > '\x7f' ==> r == unicode_white_space(c),
;

/// `char::is_alphabetic`: true of the ASCII letters; of no other ASCII character; of a
/// character above U+007F exactly when it has the property `Alphabetic`.
pub assume_specification[ char::is_alphabetic ](c: char) -> (r: bool)
    ensures
        c <= '\x7f' ==> r == (('a' <= c && c <= 'z') || ('A' <= c && c <= 'Z')),
        c > '\x7f' ==> r == unicode_alphabetic(c),
;

/// `String::push`: the string afterwards is the string before with `ch` at its end.
pub assume_specification[ std::string::String::push ](s: &mut std::string::String, ch: char)
    ensures
        final(s)@ == old(s)@.push(ch),
;

/// Whether `c` is a decimal digit.
pub(crate) fn digit(c: char) -> (r: bool)
    ensures
        r == is_digit(c),
{
    '0' <= c && c <= '9'
}

/// The end of the longest run of characters that satisfy `p` and start at `i`:
/// the first position from `i` on whose character fails `p`, or the end of `s`.
pub open spec fn run_end(s: Seq<char>, i: int, p: spec_fn(char) -> bool) -> int
    decreases s.len() - i,
{
    if 0 <= i < s.len() && p(s[i]) {
        run_end(s, i + 1, p)
    } else {
        i
    }
}

/// A run ends where its first failing character stands.
pub proof fn lemma_run_end(s: Seq<char>, i: int, j: int, p: spec_fn(char) -> bool)
    requires
        0 <= i <= j <= s.len(),
        forall|k: int| i <= k < j ==> p(#[trigger] s[k]),
        j == s.len() || !p(s[j]),
    ensures
        run_end(s, i, p) == j,
    decreases j - i,
{
    if i < j {
        lemma_run_end(s, i + 1, j, p);
    }
}

/// What lies inside a run satisfies `p`, and what follows it does not.
pub proof fn lemma_run_end_bounds(s: Seq<char>, i: int, p: spec_fn(char) -> bool)
    requires
        0 <= i <= s.len(),
    ensures
        i <= run_end(s, i, p) <= s.len(),
        forall|k: int| i <= k < run_end(s, i, p) ==> p(#[trigger] s[k]),
        run_end(s, i, p) == s.len() || !p(s[run_end(s, i, p)]),
    decreases s.len() - i,
{
    if i < s.len() && p(s[i]) {
        lemma_run_end_bounds(s, i + 1, p);
    }
}

/// The characters of `v` from `from` up to `to`, as a string.
pub(crate) fn collect(v: &Vec<char>, from: usize, to: usize) -> (r: String)
    requires
        from <= to <= v.len(),
    ensures
        r@ == v@.subrange(from as int, to as int),
{
    let mut r = String::new();
    let mut i: usize = from;
    while i < to
        invariant
            from <= i <= to <= v.len(),
            r@ == v@.subrange(from as int, i as int),
        decreases to - i,
    {
        r.push(v[i]);
        i += 1;
    }
    r
}

/// The characters of `s`, one by one.
pub(crate) fn chars_of(s: &str) -> (v: Vec<char>)
    ensures
        v@ == s@,
{
    let mut v: Vec<char> = Vec::new();
    for c in it: s.chars()
        invariant
            v@ == it.seq().take(it.index()),
    {
        v.push(c);
    }
    v
}

} // verus!
