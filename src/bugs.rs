//! Bug references in report text: the word `bug` in any case, whitespace, and
//! a digit run that no alphabetic character follows, whose value is positive
//! and fits in a `u32`.

use vstd::prelude::*;
use crate::text::{alpha, is_alphabetic, chars_of};
use crate::scan::{space_end, digit_end, bug_word_at, digits_value, lemma_space_end_bounds, lemma_digit_end_bounds, space_end_exec, digit_end_exec, bug_word_at_exec, parse_digits};

verus! {

/// Where the digits of a reference whose word starts at `i` begin.
pub open spec fn ref_digits_start(t: Seq<char>, i: int) -> int {
    space_end(t, i + 3)
}

/// Where the digits of a reference whose word starts at `i` end.
pub open spec fn ref_digits_end(t: Seq<char>, i: int) -> int {
    digit_end(t, ref_digits_start(t, i))
}

/// A bug reference starts at `i`.
pub open spec fn bug_ref_at(t: Seq<char>, i: int) -> bool {
    let w = ref_digits_start(t, i);
    let d = ref_digits_end(t, i);
    &&& bug_word_at(t, i)
    &&& w > i + 3
    &&& d > w
    &&& (d == t.len() || !alpha(t[d]))
    &&& 0 < digits_value(t.subrange(w, d)) <= u32::MAX
}

/// The number of the reference that starts at `i`.
pub open spec fn bug_ref_value(t: Seq<char>, i: int) -> u32 {
    digits_value(t.subrange(ref_digits_start(t, i), ref_digits_end(t, i))) as u32
}

/// The bug numbers referenced in `t` from position `i` on, in order of
/// appearance, repeats included.
pub open spec fn bug_ids_from(t: Seq<char>, i: int) -> Seq<u32>
    decreases t.len() - i,
{
    if i < 0 || i >= t.len() {
        seq![]
    } else if bug_ref_at(t, i) {
        seq![bug_ref_value(t, i)] + bug_ids_from(t, i + 1)
    } else {
        bug_ids_from(t, i + 1)
    }
}

/// The bug numbers referenced in `t`.
pub open spec fn bug_ids(t: Seq<char>) -> Seq<u32> {
    bug_ids_from(t, 0)
}

/// Whether a reference starts at `i`, and its number.
pub(crate) fn bug_ref_exec(t: &Vec<char>, i: usize) -> (r: Option<u32>)
    ensures
        match r {
            Some(v) => bug_ref_at(t@, i as int) && v == bug_ref_value(t@, i as int),
            None => !bug_ref_at(t@, i as int),
        },
{
    if !bug_word_at_exec(t, i) {
        return None;
    }
    assert(i + 3 <= t.len());
    proof {
        lemma_space_end_bounds(t@, i + 3);
    }
    let w = space_end_exec(t, i + 3);
    if w == i + 3 {
        return None;
    }
    proof {
        lemma_digit_end_bounds(t@, w as int);
    }
    let d = digit_end_exec(t, w);
    if d == w {
        return None;
    }
    if d < t.len() && is_alphabetic(t[d]) {
        return None;
    }
    match parse_digits(t, w, d) {
        Some(v) => if v == 0 {
            None
        } else {
            Some(v)
        },
        None => None,
    }
}

pub(crate) fn bug_ids_of(t: &Vec<char>) -> (r: Vec<u32>)
    ensures
        r@ == bug_ids(t@),
{
    let mut out: Vec<u32> = Vec::new();
    let mut i: usize = 0;
    while i < t.len()
        invariant
            i <= t@.len(),
            out@ + bug_ids_from(t@, i as int) == bug_ids(t@),
        decreases t@.len() - i,
    {
        let r = bug_ref_exec(t, i);
        match r {
            Some(v) => {
                assert(out@.push(v) + bug_ids_from(t@, i + 1) =~= out@ + bug_ids_from(
                    t@,
                    i as int,
                ));
                out.push(v);
            },
            None => {},
        }
        i = i + 1;
    }
    assert(out@ + bug_ids_from(t@, i as int) =~= out@);
    out
}

/// The bug numbers referenced in `input`, in order of appearance, repeats
/// included.
pub fn extract_bug_numbers(input: &str) -> (r: Vec<u32>)
    ensures
        r@ == bug_ids(input@),
{
    let t = chars_of(input);
    bug_ids_of(&t)
}

} // verus!
