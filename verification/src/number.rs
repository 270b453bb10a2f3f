//! Number literals. A number is kept as the text it was written with, so nothing is
//! lost to rounding; the grammar below is what makes a text a number.

use vstd::prelude::*;
use vstd::string::*;
use crate::text::{chars_of, digit, is_digit, lemma_run_end, run_end};

verus! {

/// Where the digits that start at `i` end.
pub open spec fn digits_end(t: Seq<char>, i: int) -> int {
    run_end(t, i, |c: char| is_digit(c))
}

/// Where the fraction that may start at `a` ends: past a point and the digits behind
/// it, or at `a` itself where no point stands.
pub open spec fn fraction_end(t: Seq<char>, a: int) -> int {
    if 0 <= a < t.len() && t[a] == '.' {
        digits_end(t, a + 1)
    } else {
        a
    }
}

/// Whether `c` introduces an exponent.
pub open spec fn is_exponent_mark(c: char) -> bool {
    c == 'e' || c == 'E'
}

/// A number literal is one or more digits, then optionally a point and any number of
/// digits, then optionally `e` or `E` and one or more digits, and nothing else.
/// There is no sign, neither before the number nor in the exponent.
pub open spec fn is_number_literal(t: Seq<char>) -> bool {
    let a = digits_end(t, 0);
    let b = fraction_end(t, a);
    &&& a > 0
    &&& b == t.len() || {
        &&& is_exponent_mark(t[b])
        &&& b + 1 < t.len()
        &&& digits_end(t, b + 1) == t.len()
    }
}

/// The end of the digits of `v` that start at `i`.
fn skip_digits(v: &Vec<char>, i: usize) -> (j: usize)
    requires
        i <= v.len(),
    ensures
        i <= j <= v.len(),
        j == digits_end(v@, i as int),
{
    let mut j: usize = i;
    while j < v.len() && digit(v[j])
        invariant
            i <= j <= v.len(),
            forall|k: int| i <= k < j ==> is_digit(#[trigger] v@[k]),
        decreases v.len() - j,
    {
        j += 1;
    }
    proof {
        lemma_run_end(v@, i as int, j as int, |c: char| is_digit(c));
    }
    j
}

/// Whether the characters of `v` form a number literal.
fn is_literal(v: &Vec<char>) -> (r: bool)
    ensures
        r == is_number_literal(v@),
{
    let a = skip_digits(v, 0);
    if a == 0 {
        return false;
    }
    let b = if a < v.len() && v[a] == '.' {
        skip_digits(v, a + 1)
    } else {
        a
    };
    if b == v.len() {
        return true;
    }
    if !(v[b] == 'e' || v[b] == 'E') {
        return false;
    }
    if b + 1 >= v.len() {
        return false;
    }
    let c = skip_digits(v, b + 1);
    c == v.len()
}

/// A number, held as the literal it was written with.
#[derive(Debug, PartialEq, Eq)]
pub struct JsonNumber {
    text: String,
}

impl View for JsonNumber {
    type V = Seq<char>;

    closed spec fn view(&self) -> Seq<char> {
        self.text@
    }
}

impl JsonNumber {
    #[verifier::type_invariant]
    spec fn well_formed(self) -> bool {
        is_number_literal(self.text@)
    }

    /// The number that `text` denotes, if `text` is a number literal.
    pub fn new(text: &str) -> (r: Option<JsonNumber>)
        ensures
            r is Some <==> is_number_literal(text@),
            r matches Some(n) ==> n@ == text@,
    {
        let v = chars_of(text);
        if is_literal(&v) {
            Some(JsonNumber { text: String::from_str(text) })
        } else {
            None
        }
    }

    /// Whether the two are written alike.
    pub fn same(&self, other: &JsonNumber) -> (r: bool)
        ensures
            r == (self@ == other@),
    {
        self.text == other.text
    }

    /// The literal, which is always well formed.
    pub fn as_str(&self) -> (r: &str)
        ensures
            r@ == self@,
            is_number_literal(r@),
    {
        proof {
            use_type_invariant(self);
        }
        self.text.as_str()
    }
}

impl Clone for JsonNumber {
    fn clone(&self) -> (r: JsonNumber)
        ensures
            r@ == self@,
    {
        proof {
            use_type_invariant(self);
        }
        JsonNumber { text: self.text.clone() }
    }
}

} // verus!
