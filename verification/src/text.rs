//! Small verified operations on strings and characters.
use vstd::prelude::*;

verus! {

/// Whether `s` holds exactly the characters of `lit`.
pub fn string_is(s: &String, lit: &str) -> (r: bool)
    ensures
        r == (s@ == lit@),
{
    *s == lit.to_owned()
}

/// The characters of `s`, in order.
pub fn chars_of(s: &str) -> (v: Vec<char>)
    ensures
        v@ == s@,
{
    let mut v: Vec<char> = Vec::new();
    for c in it: s.chars()
        invariant
            it.seq() == s@,
            v@ == it.seq().take(it.index() as int),
    {
        v.push(c);
        proof {
            assert(v@ =~= it.seq().take(it.index() + 1));
        }
    }
    proof {
        assert(v@ =~= s@);
    }
    v
}

/// Whether `s` begins with the characters of `prefix`.
pub fn starts_with(s: &String, prefix: &str) -> (r: bool)
    ensures
        r == prefix@.is_prefix_of(s@),
{
    let sc = chars_of(s.as_str());
    let pc = chars_of(prefix);
    if pc.len() > sc.len() {
        return false;
    }
    for i in 0..pc.len()
        invariant
            sc@ == s@,
            pc@ == prefix@,
            pc@.len() <= sc@.len(),
            forall|j: int| 0 <= j < i ==> pc@[j] == sc@[j],
    {
        if pc[i] != sc[i] {
            return false;
        }
    }
    true
}

} // verus!
