//! Building strings a character at a time, and names compared without regard to case.

use vstd::prelude::*;

verus! {

/// `String::push` of std: the character goes to the end of the string.
pub assume_specification[ String::push ](s: &mut String, c: char)
    ensures
        final(s)@ == old(s)@.push(c),
;

/// `b` with a lower-case ASCII letter made upper-case.
pub open spec fn upper(b: u8) -> u8 {
    if 97 <= b <= 122 {
        (b - 32) as u8
    } else {
        b
    }
}

/// Two byte strings that differ at most in the case of ASCII letters.
pub open spec fn same_name(a: Seq<u8>, b: Seq<u8>) -> bool {
    a.len() == b.len() && forall|i: int| 0 <= i < a.len() ==> upper(#[trigger] a[i]) == upper(b[i])
}

pub fn to_upper(b: u8) -> (u: u8)
    ensures
        u == upper(b),
{
    if 97 <= b && b <= 122 {
        b - 32
    } else {
        b
    }
}

pub fn eq_ignore_case(a: &[u8], b: &[u8]) -> (r: bool)
    ensures
        r == same_name(a@, b@),
{
    if a.len() != b.len() {
        return false;
    }
    let mut i: usize = 0;
    while i < a.len()
        invariant
            i <= a.len(),
            a.len() == b.len(),
            forall|j: int| 0 <= j < i ==> upper(#[trigger] a@[j]) == upper(b@[j]),
        decreases a.len() - i,
    {
        if to_upper(a[i]) != to_upper(b[i]) {
            return false;
        }
        i = i + 1;
    }
    true
}

/// The characters as a string.
pub fn text_of(chars: &Vec<char>) -> (s: String)
    ensures
        s@ == chars@,
{
    let mut s = String::new();
    let mut i: usize = 0;
    while i < chars.len()
        invariant
            i <= chars.len(),
            s@ == chars@.take(i as int),
        decreases chars.len() - i,
    {
        s.push(chars[i]);
        assert(s@ =~= chars@.take(i + 1));
        i = i + 1;
    }
    assert(chars@.take(chars@.len() as int) =~= chars@);
    s
}

/// Comparing without regard to case: every name equals itself, in both
/// directions, and through a third one.
pub proof fn same_name_is_equivalence(a: Seq<u8>, b: Seq<u8>, c: Seq<u8>)
    ensures
        same_name(a, a),
        same_name(a, b) ==> same_name(b, a),
        same_name(a, b) && same_name(b, c) ==> same_name(a, c),
{
}

/// Two names are the same if they have the same length and each byte of one is that of the other, or
/// the two are the same letter in its two cases, which are 32 apart.
pub proof fn only_case_is_passed_over(a: Seq<u8>, b: Seq<u8>)
    ensures
        same_name(a, b) <==> a.len() == b.len() && forall|i: int|
            #![trigger a[i]]
            #![trigger b[i]]
            0 <= i < a.len() ==> {
                ||| a[i] == b[i]
                ||| 65 <= a[i] <= 90 && b[i] == a[i] + 32
                ||| 65 <= b[i] <= 90 && a[i] == b[i] + 32
            },
{
    if same_name(a, b) {
        assert forall|i: int| 0 <= i < a.len() implies {
            ||| #[trigger] a[i] == b[i]
            ||| 65 <= a[i] <= 90 && b[i] == a[i] + 32
            ||| 65 <= b[i] <= 90 && a[i] == b[i] + 32
        } by {
            assert(upper(a[i]) == upper(b[i]));
        }
    }
}

/// Letters in small become capital, in their order, and everything else stays.
pub proof fn capitals_are_in_order(b: u8)
    ensures
        97 <= b <= 122 ==> 65 <= upper(b) <= 90 && upper(b) - 65 == b - 97,
        b < 97 || b > 122 ==> upper(b) == b,
        upper(upper(b)) == upper(b),
{
}

} // verus!
