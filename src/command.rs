//! Chat commands: a message addressed to a nick (`nick: text`), and a date
//! range (`YYYY-MM-DD to YYYY-MM-DD`) inside a message.

use vstd::prelude::*;
use crate::text::{is_digit, is_digit_exec, chars_of, string_of};
use crate::scan::{space_end, lemma_space_end_bounds, space_end_exec, occurs_at};

verus! {

/// The first colon at or after `j`, or the end of `t`.
pub open spec fn colon_from(t: Seq<char>, j: int) -> int
    decreases t.len() - j,
{
    if 0 <= j < t.len() && t[j] != ':' {
        colon_from(t, j + 1)
    } else {
        j
    }
}

/// `nick: text` split into the nick (before the first colon, not empty) and
/// the text after the colon and the whitespace that follows it.
pub open spec fn addressed(t: Seq<char>) -> Option<(Seq<char>, Seq<char>)> {
    let c = colon_from(t, 0);
    if 0 < c < t.len() {
        Some((t.subrange(0, c), t.subrange(space_end(t, c + 1), t.len() as int)))
    } else {
        None
    }
}

/// A date `DDDD-DD-DD` starts at `i`.
pub open spec fn date_at(t: Seq<char>, i: int) -> bool {
    &&& 0 <= i
    &&& i + 10 <= t.len()
    &&& forall|k: int|
        0 <= k < 10 ==> if k == 4 || k == 7 {
            t[i + k] == '-'
        } else {
            is_digit(#[trigger] t[i + k])
        }
}

/// A date range `DATE to DATE` (with whitespace around `to`) starts at `i`.
pub open spec fn range_at(t: Seq<char>, i: int) -> bool {
    let w = space_end(t, i + 10);
    let e = space_end(t, w + 2);
    &&& date_at(t, i)
    &&& w > i + 10
    &&& w + 2 <= t.len()
    &&& t[w] == 't'
    &&& t[w + 1] == 'o'
    &&& e > w + 2
    &&& date_at(t, e)
}

/// The start and end dates of the first range at or after `i`.
pub open spec fn first_range_from(t: Seq<char>, i: int) -> Option<(Seq<char>, Seq<char>)>
    decreases t.len() - i,
{
    if i < 0 || i >= t.len() {
        None
    } else if range_at(t, i) {
        let e = space_end(t, space_end(t, i + 10) + 2);
        Some((t.subrange(i, i + 10), t.subrange(e, e + 10)))
    } else {
        first_range_from(t, i + 1)
    }
}

fn date_at_exec(t: &Vec<char>, i: usize) -> (r: bool)
    ensures
        r == date_at(t@, i as int),
{
    if i > t.len() || t.len() - i < 10 {
        return false;
    }
    let mut k: usize = 0;
    while k < 10
        invariant
            k <= 10,
            i + 10 <= t@.len(),
            t@.len() <= usize::MAX,
            forall|m: int|
                0 <= m < k ==> if m == 4 || m == 7 {
                    t@[i + m] == '-'
                } else {
                    is_digit(#[trigger] t@[i + m])
                },
        decreases 10 - k,
    {
        let c = t[i + k];
        if k == 4 || k == 7 {
            if c != '-' {
                return false;
            }
        } else if !is_digit_exec(c) {
            return false;
        }
        k = k + 1;
    }
    true
}

fn slice_chars(t: &Vec<char>, from: usize, to: usize) -> (r: Vec<char>)
    requires
        from <= to <= t@.len(),
    ensures
        r@ == t@.subrange(from as int, to as int),
{
    let mut r: Vec<char> = Vec::new();
    let mut k: usize = from;
    while k < to
        invariant
            from <= k <= to <= t@.len(),
            r@ == t@.subrange(from as int, k as int),
        decreases to - k,
    {
        r.push(t[k]);
        assert(r@ =~= t@.subrange(from as int, k + 1));
        k = k + 1;
    }
    r
}

/// Splits `nick: text` into the nick and the text.
pub fn parse_addressed(message: &str) -> (r: Option<(String, String)>)
    ensures
        match (r, addressed(message@)) {
            (Some((n, m)), Some((sn, sm))) => n@ == sn && m@ == sm,
            (None, None) => true,
            _ => false,
        },
{
    let t = chars_of(message);
    let mut c: usize = 0;
    while c < t.len() && t[c] != ':'
        invariant
            c <= t@.len(),
            colon_from(t@, 0) == colon_from(t@, c as int),
        decreases t@.len() - c,
    {
        c = c + 1;
    }
    if c == 0 || c == t.len() {
        return None;
    }
    proof {
        lemma_space_end_bounds(t@, c + 1);
    }
    let s = space_end_exec(&t, c + 1);
    let nick = slice_chars(&t, 0, c);
    let rest = slice_chars(&t, s, t.len());
    Some((string_of(&nick), string_of(&rest)))
}

/// The first `DATE to DATE` range in `message`, as its two dates.
pub fn parse_date_range(message: &str) -> (r: Option<(String, String)>)
    ensures
        match (r, first_range_from(message@, 0)) {
            (Some((a, b)), Some((sa, sb))) => a@ == sa && b@ == sb,
            (None, None) => true,
            _ => false,
        },
{
    let t = chars_of(message);
    let mut i: usize = 0;
    while i < t.len()
        invariant
            i <= t@.len(),
            t@ == message@,
            first_range_from(t@, 0) == first_range_from(t@, i as int),
        decreases t@.len() - i,
    {
        if date_at_exec(&t, i) {
            proof {
                lemma_space_end_bounds(t@, i + 10);
            }
            let w = space_end_exec(&t, i + 10);
            if w > i + 10 && t.len() - w >= 2 && t[w] == 't' && t[w + 1] == 'o' {
                proof {
                    lemma_space_end_bounds(t@, w + 2);
                }
                let e = space_end_exec(&t, w + 2);
                if e > w + 2 && date_at_exec(&t, e) {
                    let a = slice_chars(&t, i, i + 10);
                    let b = slice_chars(&t, e, e + 10);
                    assert(range_at(t@, i as int));
                    let sa = string_of(&a);
                    let sb = string_of(&b);
                    return Some((sa, sb));
                }
            }
        }
        i = i + 1;
    }
    None
}

/// What the bot does with a channel message.
#[derive(Debug)]
pub enum Action {
    /// Keep the message as a report of its sender.
    Store,
    /// Print the digest of the reports between the two dates.
    Summarize(String, String),
    /// Nothing.
    Ignore,
}

/// The nick that reports are addressed to.
pub open spec fn standup_nick() -> Seq<char> {
    seq!['s', 't', 'a', 'n', 'd', 'u', 'p', 's']
}

/// The bot's own nick.
pub open spec fn bot_nick() -> Seq<char> {
    seq!['a', 'b', 'o', 't']
}

fn same_chars(a: &Vec<char>, b: &Vec<char>) -> (r: bool)
    ensures
        r == (a@ == b@),
{
    assert(a@.subrange(0, a@.len() as int) =~= a@);
    a.len() == b.len() && occurs_at(a, 0, b)
}

/// The action for `message`: a report when it is addressed to the report
/// nick, a digest when it is addressed to the bot and holds a date range.
pub fn decide(message: &str) -> (r: Action)
    ensures
        match (r, addressed(message@)) {
            (Action::Store, Some((n, _))) => n == standup_nick(),
            (Action::Summarize(s, e), Some((n, t))) => n == bot_nick() && first_range_from(t, 0)
                == Some((s@, e@)),
            (Action::Ignore, Some((n, t))) => n != standup_nick() && !(n == bot_nick()
                && first_range_from(t, 0) is Some),
            (Action::Ignore, None) => true,
            _ => false,
        },
{
    let standup = vec!['s', 't', 'a', 'n', 'd', 'u', 'p', 's'];
    let bot = vec!['a', 'b', 'o', 't'];
    assert(standup@ =~= standup_nick());
    assert(bot@ =~= bot_nick());
    match parse_addressed(message) {
        None => Action::Ignore,
        Some((nick, text)) => {
            let n = chars_of(nick.as_str());
            if same_chars(&n, &standup) {
                Action::Store
            } else if same_chars(&n, &bot) {
                match parse_date_range(text.as_str()) {
                    Some((start, end)) => Action::Summarize(start, end),
                    None => Action::Ignore,
                }
            } else {
                Action::Ignore
            }
        },
    }
}

} // verus!
