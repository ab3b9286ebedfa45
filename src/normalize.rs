//! Normalization of report text: bug-tracker links are reduced to their bug
//! number, bare long numbers are labelled as bugs, and the first character
//! is capitalized.

use vstd::prelude::*;
use crate::text::{is_digit, is_digit_exec, titlecased, titlecase_chars, chars_of, string_of};
use crate::scan::{
    space_end, digit_end, space_start, bug_word_at, lemma_space_end_bounds,
    lemma_digit_end_bounds, lemma_space_start_bounds, space_end_exec, digit_end_exec,
    space_start_exec, bug_word_at_exec, occurs_at,
};

verus! {

/// The opening of a link to the bug tracker, up to the rest of its address.
pub open spec fn anchor_open() -> Seq<char> {
    seq![
        '<', 'a', ' ', 'h', 'r', 'e', 'f', '=', '"', 'h', 't', 't', 'p', ':', '/', '/', 'b', 'u',
        'g', 'z', 'i', 'l', 'l', 'a',
    ]
}

/// The closing tag of a link.
pub open spec fn anchor_close() -> Seq<char> {
    seq!['<', '/', 'a', '>']
}

/// What is put in front of a bare bug number.
pub open spec fn bug_label() -> Seq<char> {
    seq!['b', 'u', 'g', ' ']
}

/// The first quote at or after `j`, or the end of `t`.
pub open spec fn quote_end(t: Seq<char>, j: int) -> int
    decreases t.len() - j,
{
    if 0 <= j < t.len() && t[j] != '"' {
        quote_end(t, j + 1)
    } else {
        j
    }
}

pub open spec fn anchor_quote(t: Seq<char>, i: int) -> int {
    quote_end(t, i + 24)
}

pub open spec fn anchor_digits_start(t: Seq<char>, i: int) -> int {
    space_end(t, anchor_quote(t, i) + 5)
}

pub open spec fn anchor_digits_end(t: Seq<char>, i: int) -> int {
    digit_end(t, anchor_digits_start(t, i))
}

/// A link `<a href="http://bugzilla...">bug N</a>` starts at `i`: a non-empty
/// address rest without quotes, the word `bug`, whitespace, and digits.
pub open spec fn anchor_at(t: Seq<char>, i: int) -> bool {
    let q = anchor_quote(t, i);
    let w = anchor_digits_start(t, i);
    let d = anchor_digits_end(t, i);
    &&& 0 <= i
    &&& i + 24 <= t.len()
    &&& t.subrange(i, i + 24) == anchor_open()
    &&& q > i + 24
    &&& q + 5 <= t.len()
    &&& t[q + 1] == '>'
    &&& bug_word_at(t, q + 2)
    &&& w > q + 5
    &&& d > w
    &&& d + 4 <= t.len()
    &&& t.subrange(d, d + 4) == anchor_close()
}

/// `t` from position `i` on, with each link to a bug replaced by its number.
pub open spec fn strip_from(t: Seq<char>, i: int) -> Seq<char>
    decreases t.len() - i,
{
    if i < 0 || i >= t.len() {
        seq![]
    } else if anchor_at(t, i) {
        t.subrange(anchor_digits_start(t, i), anchor_digits_end(t, i)) + strip_from(
            t,
            anchor_digits_end(t, i) + 4,
        )
    } else {
        seq![t[i]] + strip_from(t, i + 1)
    }
}

pub open spec fn stripped(t: Seq<char>) -> Seq<char> {
    strip_from(t, 0)
}

/// The digit run at `i` is preceded by the word `bug` and whitespace.
pub open spec fn labelled_at(t: Seq<char>, i: int) -> bool {
    let s = space_start(t, i);
    s < i && bug_word_at(t, s - 3)
}

/// A run of five or more digits, not already labelled, starts at `i`.
pub open spec fn bare_number_at(t: Seq<char>, i: int) -> bool {
    &&& 0 <= i < t.len()
    &&& is_digit(t[i])
    &&& (i == 0 || !is_digit(t[i - 1]))
    &&& digit_end(t, i) - i >= 5
    &&& !labelled_at(t, i)
}

/// `t` from position `i` on, with `bug ` put before each bare number.
pub open spec fn label_from(t: Seq<char>, i: int) -> Seq<char>
    decreases t.len() - i,
{
    if i < 0 || i >= t.len() {
        seq![]
    } else if bare_number_at(t, i) {
        bug_label() + seq![t[i]] + label_from(t, i + 1)
    } else {
        seq![t[i]] + label_from(t, i + 1)
    }
}

pub open spec fn labelled(t: Seq<char>) -> Seq<char> {
    label_from(t, 0)
}

/// The normal form of a report's text.
pub open spec fn normalized(t: Seq<char>) -> Seq<char> {
    titlecased(labelled(stripped(t)))
}

fn anchor_open_exec() -> (r: Vec<char>)
    ensures
        r@ == anchor_open(),
{
    let r = vec![
        '<', 'a', ' ', 'h', 'r', 'e', 'f', '=', '"', 'h', 't', 't', 'p', ':', '/', '/', 'b', 'u',
        'g', 'z', 'i', 'l', 'l', 'a',
    ];
    assert(r@ =~= anchor_open());
    r
}

fn anchor_close_exec() -> (r: Vec<char>)
    ensures
        r@ == anchor_close(),
{
    let r = vec!['<', '/', 'a', '>'];
    assert(r@ =~= anchor_close());
    r
}

fn quote_end_exec(t: &Vec<char>, j: usize) -> (r: usize)
    requires
        j <= t@.len(),
    ensures
        r as int == quote_end(t@, j as int),
        j <= r <= t@.len(),
{
    let mut k: usize = j;
    while k < t.len() && t[k] != '"'
        invariant
            j <= k <= t@.len(),
            quote_end(t@, j as int) == quote_end(t@, k as int),
        decreases t@.len() - k,
    {
        k = k + 1;
    }
    k
}

/// Where a link to a bug starts at `i`: the bounds of its digits.
fn anchor_exec(t: &Vec<char>, i: usize, open: &Vec<char>, close: &Vec<char>) -> (r: Option<(usize, usize)>)
    requires
        open@ == anchor_open(),
        close@ == anchor_close(),
    ensures
        match r {
            Some((w, d)) => anchor_at(t@, i as int) && w == anchor_digits_start(t@, i as int)
                && d == anchor_digits_end(t@, i as int),
            None => !anchor_at(t@, i as int),
        },
{
    if !occurs_at(t, i, open) {
        return None;
    }
    assert(i + 24 <= t.len());
    let q = quote_end_exec(t, i + 24);
    if q == i + 24 || t.len() - q < 5 {
        return None;
    }
    if t[q + 1] != '>' || !bug_word_at_exec(t, q + 2) {
        return None;
    }
    proof {
        lemma_space_end_bounds(t@, q + 5);
    }
    let w = space_end_exec(t, q + 5);
    if w == q + 5 {
        return None;
    }
    proof {
        lemma_digit_end_bounds(t@, w as int);
    }
    let d = digit_end_exec(t, w);
    if d == w || !occurs_at(t, d, close) {
        return None;
    }
    Some((w, d))
}

pub(crate) fn strip_chars(t: &Vec<char>) -> (r: Vec<char>)
    ensures
        r@ == stripped(t@),
{
    let open = anchor_open_exec();
    let close = anchor_close_exec();
    let mut out: Vec<char> = Vec::new();
    let mut i: usize = 0;
    while i < t.len()
        invariant
            i <= t@.len(),
            open@ == anchor_open(),
            close@ == anchor_close(),
            out@ + strip_from(t@, i as int) == stripped(t@),
        decreases t@.len() - i,
    {
        match anchor_exec(t, i, &open, &close) {
            Some((w, d)) => {
                let ghost before = out@;
                let mut k: usize = w;
                while k < d
                    invariant
                        w <= k <= d,
                        d + 4 <= t@.len(),
                        out@ == before + t@.subrange(w as int, k as int),
                    decreases d - k,
                {
                    out.push(t[k]);
                    assert(out@ =~= before + t@.subrange(w as int, k + 1));
                    k = k + 1;
                }
                assert(before + strip_from(t@, i as int) =~= out@ + strip_from(t@, d + 4));
                i = d + 4;
            },
            None => {
                assert(out@ + strip_from(t@, i as int) =~= out@.push(t[i as int]) + strip_from(
                    t@,
                    i + 1,
                ));
                out.push(t[i]);
                i = i + 1;
            },
        }
    }
    assert(out@ + strip_from(t@, i as int) =~= out@);
    out
}

fn bare_number_exec(t: &Vec<char>, i: usize) -> (r: bool)
    requires
        i < t@.len(),
    ensures
        r == bare_number_at(t@, i as int),
{
    if !is_digit_exec(t[i]) {
        return false;
    }
    if i > 0 && is_digit_exec(t[i - 1]) {
        return false;
    }
    proof {
        lemma_digit_end_bounds(t@, i as int);
    }
    let e = digit_end_exec(t, i);
    if e - i < 5 {
        return false;
    }
    proof {
        lemma_space_start_bounds(t@, i as int);
    }
    let s = space_start_exec(t, i);
    !(s < i && s >= 3 && bug_word_at_exec(t, s - 3))
}

pub(crate) fn label_chars(t: &Vec<char>) -> (r: Vec<char>)
    ensures
        r@ == labelled(t@),
{
    let mut out: Vec<char> = Vec::new();
    let mut i: usize = 0;
    while i < t.len()
        invariant
            i <= t@.len(),
            out@ + label_from(t@, i as int) == labelled(t@),
        decreases t@.len() - i,
    {
        if bare_number_exec(t, i) {
            let ghost before = out@;
            out.push('b');
            out.push('u');
            out.push('g');
            out.push(' ');
            out.push(t[i]);
            assert(before + label_from(t@, i as int) =~= out@ + label_from(t@, i + 1));
        } else {
            assert(out@ + label_from(t@, i as int) =~= out@.push(t[i as int]) + label_from(
                t@,
                i + 1,
            ));
            out.push(t[i]);
        }
        i = i + 1;
    }
    assert(out@ + label_from(t@, i as int) =~= out@);
    out
}

pub(crate) fn normalize_chars(t: &Vec<char>) -> (r: Vec<char>)
    ensures
        r@ == normalized(t@),
{
    let s = strip_chars(t);
    let mut l = label_chars(&s);
    titlecase_chars(&mut l);
    l
}

/// Replaces links to bugs by their numbers, then labels each bare number of
/// five or more digits with `bug `.
pub fn textify(maybe_html: &str) -> (r: String)
    ensures
        r@ == labelled(stripped(maybe_html@)),
{
    let t = chars_of(maybe_html);
    let s = strip_chars(&t);
    let l = label_chars(&s);
    string_of(&l)
}

/// The normal form of a report's text: `textify`, then the first character
/// capitalized.
pub fn normalize(raw: &str) -> (r: String)
    ensures
        r@ == normalized(raw@),
{
    let t = chars_of(raw);
    let n = normalize_chars(&t);
    string_of(&n)
}

} // verus!
