//! Conversions between strings and their characters, and text comparison.
use vstd::prelude::*;

verus! {

/// The characters of `s`, in order.
pub(crate) fn chars_of(s: &str) -> (res: Vec<char>)
    ensures
        res@ == s@,
{
    broadcast use vstd::string::axiom_spec_iter;
    let mut res: Vec<char> = Vec::new();
    for c in it: s.chars()
        invariant
            res@ == it.seq().take(it.index() as int),
            it.seq() == s@,
    {
        res.push(c);
        assert(res@ =~= it.seq().take(it.index() as int + 1));
    }
    assert(res@ =~= s@);
    res
}

/// The string made of `chars` (collecting the characters into a `String`).
#[verifier::external_body]
pub(crate) fn string_of(chars: &[char]) -> (res: String)
    ensures
        res@ == chars@,
{
    chars.iter().collect()
}

/// Whether `a` and `b` hold the same characters.
pub fn same_text(a: &str, b: &str) -> (res: bool)
    ensures
        res == (a@ == b@),
{
    let a_chars = chars_of(a);
    let b_chars = chars_of(b);
    if a_chars.len() != b_chars.len() {
        return false;
    }
    let mut i: usize = 0;
    while i < a_chars.len()
        invariant
            a_chars@ == a@,
            b_chars@ == b@,
            a_chars.len() == b_chars.len(),
            i <= a_chars.len(),
            forall|j: int| 0 <= j < i ==> a_chars@[j] == b_chars@[j],
        decreases a_chars.len() - i,
    {
        if a_chars[i] != b_chars[i] {
            return false;
        }
        i = i + 1;
    }
    assert(a_chars@ =~= b_chars@);
    true
}

} // verus!
