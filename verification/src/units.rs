//! Recognition of lengths that amount to zero.
use vstd::prelude::*;
use crate::text::chars_of;

verus! {

/// Whether `c` may appear in the number part of a length.
pub open spec fn is_number_char(c: char) -> bool {
    ('0' <= c && c <= '9') || c == '.'
}

/// The length of the longest prefix of `s` made of digits and dots.
pub open spec fn number_part_len(s: Seq<char>) -> nat
    decreases s.len(),
{
    if s.len() == 0 || !is_number_char(s[0]) {
        0
    } else {
        1 + number_part_len(s.drop_first())
    }
}

/// The length with its sign, if any, removed.
pub open spec fn unsigned_part(s: Seq<char>) -> Seq<char> {
    if s.len() > 0 && (s[0] == '+' || s[0] == '-') {
        s.drop_first()
    } else {
        s
    }
}

/// Whether `m` is a decimal numeral (at least one digit, at most one dot) all
/// of whose digits are zero.
pub open spec fn is_zero_numeral(m: Seq<char>) -> bool {
    &&& forall|i: int| 0 <= i < m.len() ==> (#[trigger] m[i] == '0' || m[i] == '.')
    &&& exists|i: int| 0 <= i < m.len() && #[trigger] m[i] == '0'
    &&& forall|i: int, j: int| 0 <= i < j < m.len() && #[trigger] m[i] == '.' ==> #[trigger] m[j] != '.'
}

/// Whether `u` names no unit or an absolute unit of length.
pub open spec fn is_absolute_unit(u: Seq<char>) -> bool {
    u == ""@ || u == "px"@ || u == "pt"@ || u == "pc"@ || u == "mm"@ || u == "cm"@ || u == "in"@
}

/// Whether the length `s` amounts to zero pixels: an optionally signed decimal
/// numeral whose digits are all zero, followed by no unit or an absolute unit.
pub open spec fn is_zero_length(s: Seq<char>) -> bool {
    let body = unsigned_part(s);
    let k = number_part_len(body) as int;
    is_zero_numeral(body.take(k)) && is_absolute_unit(body.skip(k))
}

proof fn lemma_number_part_len(s: Seq<char>, k: int)
    requires
        0 <= k <= s.len(),
        forall|j: int| 0 <= j < k ==> is_number_char(#[trigger] s[j]),
        k == s.len() || !is_number_char(s[k]),
    ensures
        number_part_len(s) == k,
    decreases k,
{
    if k > 0 {
        lemma_number_part_len(s.drop_first(), k - 1);
    }
}

fn is_absolute_unit_exec(u: &Vec<char>) -> (r: bool)
    ensures
        r == is_absolute_unit(u@),
{
    proof {
        reveal_strlit("");
        reveal_strlit("px");
        reveal_strlit("pt");
        reveal_strlit("pc");
        reveal_strlit("mm");
        reveal_strlit("cm");
        reveal_strlit("in");
    }
    if u.len() == 0 {
        assert(u@ =~= ""@);
        return true;
    }
    if u.len() != 2 {
        return false;
    }
    let a = u[0];
    let b = u[1];
    let r = (a == 'p' && (b == 'x' || b == 't' || b == 'c')) || (a == 'm' && b == 'm') || (a == 'c'
        && b == 'm') || (a == 'i' && b == 'n');
    proof {
        if r {
            if a == 'p' && b == 'x' {
                assert(u@ =~= "px"@);
            } else if a == 'p' && b == 't' {
                assert(u@ =~= "pt"@);
            } else if a == 'p' && b == 'c' {
                assert(u@ =~= "pc"@);
            } else if a == 'm' {
                assert(u@ =~= "mm"@);
            } else if a == 'c' {
                assert(u@ =~= "cm"@);
            } else {
                assert(u@ =~= "in"@);
            }
        }
    }
    r
}

/// Whether the length `value` amounts to zero pixels (see `is_zero_length`).
pub fn is_zero_length_exec(value: &String) -> (r: bool)
    ensures
        r == is_zero_length(value@),
{
    let s = chars_of(value.as_str());
    let start: usize = if s.len() > 0 && (s[0] == '+' || s[0] == '-') { 1 } else { 0 };
    let ghost body = unsigned_part(s@);
    assert(body =~= s@.skip(start as int));
    let mut k: usize = start;
    while k < s.len() && ((s[k] >= '0' && s[k] <= '9') || s[k] == '.')
        invariant
            start <= k <= s@.len(),
            body == s@.skip(start as int),
            forall|j: int| start <= j < k ==> is_number_char(#[trigger] s@[j]),
        decreases s.len() - k,
    {
        k = k + 1;
    }
    proof {
        assert forall|j: int| 0 <= j < k - start implies is_number_char(#[trigger] body[j]) by {
            assert(body[j] == s@[j + start]);
        }
        lemma_number_part_len(body, k - start);
    }
    let ghost m = body.take(k - start);
    let mut all_zero = true;
    let mut seen_zero = false;
    let mut dots: usize = 0;
    let mut i: usize = start;
    while i < k
        invariant
            start <= i <= k <= s@.len(),
            body == s@.skip(start as int),
            m == body.take(k - start),
            all_zero == (forall|j: int| 0 <= j < i - start ==> (#[trigger] m[j] == '0' || m[j] == '.')),
            seen_zero == (exists|j: int| 0 <= j < i - start && #[trigger] m[j] == '0'),
            dots <= 2,
            dots == 0 ==> forall|j: int| 0 <= j < i - start ==> #[trigger] m[j] != '.',
            dots == 1 ==> exists|j: int| 0 <= j < i - start && #[trigger] m[j] == '.' && forall|l: int| 0 <= l < i - start && l != j ==> #[trigger] m[l] != '.',
            dots == 2 ==> exists|j: int, l: int| 0 <= j < l < i - start && #[trigger] m[j] == '.' && #[trigger] m[l] == '.',
        decreases k - i,
    {
        let c = s[i];
        assert(m[i - start] == c);
        if c == '0' {
            seen_zero = true;
            assert(m[i - start] == '0');
        } else if c == '.' {
            if dots == 0 {
                dots = 1;
                assert(m[i - start] == '.');
            } else if dots == 1 {
                dots = 2;
                proof {
                    let j = choose|j: int| 0 <= j < i - start && #[trigger] m[j] == '.' && forall|l: int| 0 <= l < i - start && l != j ==> #[trigger] m[l] != '.';
                    assert(m[j] == '.' && m[i - start] == '.');
                }
            }
        } else {
            all_zero = false;
        }
        i = i + 1;
    }
    let mut unit: Vec<char> = Vec::new();
    let mut u: usize = k;
    while u < s.len()
        invariant
            k <= u <= s@.len(),
            unit@ == s@.subrange(k as int, u as int),
        decreases s.len() - u,
    {
        unit.push(s[u]);
        u = u + 1;
        assert(unit@ =~= s@.subrange(k as int, u as int));
    }
    proof {
        assert(unit@ =~= body.skip(k - start));
        assert(m.len() == k - start);
        if dots == 2 {
            let (j, l) = choose|j: int, l: int| 0 <= j < l < m.len() && #[trigger] m[j] == '.' && #[trigger] m[l] == '.';
            assert(!is_zero_numeral(m));
        }
        if dots == 1 {
            let j = choose|j: int| 0 <= j < m.len() && #[trigger] m[j] == '.' && forall|l: int| 0 <= l < m.len() && l != j ==> #[trigger] m[l] != '.';
            assert forall|a: int, b: int| 0 <= a < b < m.len() && #[trigger] m[a] == '.' implies #[trigger] m[b] != '.' by {
                if m[b] == '.' {
                    assert(b == j);
                    assert(a == j);
                }
            }
        }
    }
    all_zero && seen_zero && dots <= 1 && is_absolute_unit_exec(&unit)
}

} // verus!
