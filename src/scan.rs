//! Runs of characters: whitespace runs, digit runs, literal words, and the
//! decimal value of a digit run.

use vstd::prelude::*;
use crate::text::{is_digit, is_space, is_digit_exec, is_space_exec};

verus! {

/// The end of the whitespace run that starts at `j`.
pub open spec fn space_end(t: Seq<char>, j: int) -> int
    decreases t.len() - j,
{
    if 0 <= j < t.len() && is_space(t[j]) {
        space_end(t, j + 1)
    } else {
        j
    }
}

/// The end of the digit run that starts at `j`.
pub open spec fn digit_end(t: Seq<char>, j: int) -> int
    decreases t.len() - j,
{
    if 0 <= j < t.len() && is_digit(t[j]) {
        digit_end(t, j + 1)
    } else {
        j
    }
}

/// The start of the whitespace run that ends at `j`.
pub open spec fn space_start(t: Seq<char>, j: int) -> int
    decreases j,
{
    if 0 < j <= t.len() && is_space(t[j - 1]) {
        space_start(t, j - 1)
    } else {
        j
    }
}

/// The word `bug`, in any case, stands at `i`.
pub open spec fn bug_word_at(t: Seq<char>, i: int) -> bool {
    &&& 0 <= i
    &&& i + 3 <= t.len()
    &&& (t[i] == 'b' || t[i] == 'B')
    &&& (t[i + 1] == 'u' || t[i + 1] == 'U')
    &&& (t[i + 2] == 'g' || t[i + 2] == 'G')
}

/// The value of a run of decimal digits.
pub open spec fn digits_value(s: Seq<char>) -> nat
    decreases s.len(),
{
    if s.len() == 0 {
        0
    } else {
        digits_value(s.drop_last()) * 10 + ((s.last() as u32 - '0' as u32) as nat)
    }
}

pub proof fn lemma_space_end_bounds(t: Seq<char>, j: int)
    requires
        0 <= j <= t.len(),
    ensures
        j <= space_end(t, j) <= t.len(),
        forall|k: int| j <= k < space_end(t, j) ==> is_space(#[trigger] t[k]),
        space_end(t, j) < t.len() ==> !is_space(t[space_end(t, j)]),
    decreases t.len() - j,
{
    if j < t.len() && is_space(t[j]) {
        lemma_space_end_bounds(t, j + 1);
    }
}

pub proof fn lemma_digit_end_bounds(t: Seq<char>, j: int)
    requires
        0 <= j <= t.len(),
    ensures
        j <= digit_end(t, j) <= t.len(),
        forall|k: int| j <= k < digit_end(t, j) ==> is_digit(#[trigger] t[k]),
        digit_end(t, j) < t.len() ==> !is_digit(t[digit_end(t, j)]),
    decreases t.len() - j,
{
    if j < t.len() && is_digit(t[j]) {
        lemma_digit_end_bounds(t, j + 1);
    }
}

pub proof fn lemma_space_start_bounds(t: Seq<char>, j: int)
    requires
        0 <= j <= t.len(),
    ensures
        0 <= space_start(t, j) <= j,
    decreases j,
{
    if 0 < j && is_space(t[j - 1]) {
        lemma_space_start_bounds(t, j - 1);
    }
}

pub(crate) fn space_end_exec(t: &Vec<char>, j: usize) -> (r: usize)
    requires
        j <= t@.len(),
    ensures
        r as int == space_end(t@, j as int),
{
    let mut k: usize = j;
    while k < t.len() && is_space_exec(t[k])
        invariant
            j <= k <= t@.len(),
            space_end(t@, j as int) == space_end(t@, k as int),
        decreases t@.len() - k,
    {
        k = k + 1;
    }
    k
}

pub(crate) fn digit_end_exec(t: &Vec<char>, j: usize) -> (r: usize)
    requires
        j <= t@.len(),
    ensures
        r as int == digit_end(t@, j as int),
{
    let mut k: usize = j;
    while k < t.len() && is_digit_exec(t[k])
        invariant
            j <= k <= t@.len(),
            digit_end(t@, j as int) == digit_end(t@, k as int),
        decreases t@.len() - k,
    {
        k = k + 1;
    }
    k
}

pub(crate) fn space_start_exec(t: &Vec<char>, j: usize) -> (r: usize)
    requires
        j <= t@.len(),
    ensures
        r as int == space_start(t@, j as int),
{
    let mut k: usize = j;
    while k > 0 && is_space_exec(t[k - 1])
        invariant
            k <= j <= t@.len(),
            space_start(t@, j as int) == space_start(t@, k as int),
        decreases k,
    {
        k = k - 1;
    }
    k
}

pub(crate) fn bug_word_at_exec(t: &Vec<char>, i: usize) -> (r: bool)
    ensures
        r == bug_word_at(t@, i as int),
{
    i < t.len() && t.len() - i >= 3 && (t[i] == 'b' || t[i] == 'B') && (t[i + 1] == 'u' || t[i
        + 1] == 'U') && (t[i + 2] == 'g' || t[i + 2] == 'G')
}

/// Whether `p` occurs in `t` at position `i`.
pub(crate) fn occurs_at(t: &Vec<char>, i: usize, p: &Vec<char>) -> (r: bool)
    ensures
        r == (i + p@.len() <= t@.len() && t@.subrange(i as int, i + p@.len()) == p@),
{
    if i > t.len() || t.len() - i < p.len() {
        return false;
    }
    let mut k: usize = 0;
    while k < p.len()
        invariant
            i + p@.len() <= t@.len(),
            t@.len() <= usize::MAX,
            k <= p@.len(),
            forall|m: int| 0 <= m < k ==> t@[i + m] == p@[m],
        decreases p@.len() - k,
    {
        if t[i + k] != p[k] {
            assert(t@.subrange(i as int, i + p@.len())[k as int] != p@[k as int]);
            return false;
        }
        k = k + 1;
    }
    assert(t@.subrange(i as int, i + p@.len()) =~= p@);
    true
}

/// The value of the digit run `t[w..d]`, or `None` where it exceeds `u32::MAX`.
pub(crate) fn parse_digits(t: &Vec<char>, w: usize, d: usize) -> (r: Option<u32>)
    requires
        w <= d <= t@.len(),
        forall|k: int| w <= k < d ==> is_digit(#[trigger] t@[k]),
    ensures
        match r {
            Some(v) => v as nat == digits_value(t@.subrange(w as int, d as int)),
            None => digits_value(t@.subrange(w as int, d as int)) > u32::MAX,
        },
{
    let mut acc: u64 = 0;
    let mut k: usize = w;
    while k < d
        invariant
            w <= k <= d <= t@.len(),
            forall|m: int| w <= m < d ==> is_digit(#[trigger] t@[m]),
            acc as nat == digits_value(t@.subrange(w as int, k as int)),
            acc <= u32::MAX,
        decreases d - k,
    {
        let c = t[k];
        assert(is_digit(t@[k as int]));
        let dv: u64 = (c as u32 - '0' as u32) as u64;
        assert(t@.subrange(w as int, k + 1).drop_last() =~= t@.subrange(w as int, k as int));
        assert(t@.subrange(w as int, k + 1).last() == c);
        let next: u64 = acc * 10 + dv;
        if next > 0xFFFF_FFFF {
            proof {
                lemma_value_grows(t@, w as int, k as int + 1, d as int);
            }
            return None;
        }
        acc = next;
        k = k + 1;
    }
    Some(acc as u32)
}

/// Extending a digit run never lowers its value.
pub proof fn lemma_value_grows(t: Seq<char>, w: int, k: int, d: int)
    requires
        0 <= w <= k <= d <= t.len(),
    ensures
        digits_value(t.subrange(w, k)) <= digits_value(t.subrange(w, d)),
    decreases d - k,
{
    if k < d {
        lemma_value_grows(t, w, k + 1, d);
        assert(t.subrange(w, k + 1).drop_last() =~= t.subrange(w, k));
    }
}

} // verus!
