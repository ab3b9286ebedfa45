//! Aggregation of status reports into a per-author digest: reports are
//! grouped by author, deduplicated after normalization, split into those
//! without bug references and buckets per bug, and rendered as wiki lists.

use vstd::prelude::*;
use crate::text::{chars_of, string_of};
use crate::bugs::{bug_ids, bug_ids_of};
use crate::normalize::{normalized, normalize_chars};
use crate::order::{
    text_lt, text_order, id_order, strictly_sorted, holds_exactly, sorted_texts, sorted_ids,
    texts_view, text_less, insert_text, insert_id, lemma_text_lt_total, lemma_sorted_texts_is,
    lemma_sorted_ids_is, lemma_insert_contains,
};

verus! {

/// A point in time, in seconds and nanoseconds since the Unix epoch.
#[derive(Clone, Copy, Debug)]
pub struct Timestamp {
    pub sec: i64,
    pub nsec: i32,
}

/// One status report as read from the store.
#[derive(Debug)]
pub struct Status {
    pub id: i32,
    pub name: String,
    pub time_created: Timestamp,
    pub report: String,
}

/// What is shown for a bug that the resolver did not describe.
pub open spec fn placeholder() -> Seq<char> {
    seq![
        'i', 'n', 'v', 'a', 'l', 'i', 'd', ' ', 'o', 'r', ' ', 'i', 'n', 'a', 'c', 'c', 'e', 's',
        's', 'i', 'b', 'l', 'e', ' ', 'b', 'u', 'g',
    ]
}

/// The authors of the reports.
pub open spec fn author_set(st: Seq<Status>) -> Set<Seq<char>> {
    Set::new(|a: Seq<char>| exists|i: int| 0 <= i < st.len() && #[trigger] st[i].name@ == a)
}

/// The normalized texts of the reports of author `a`.
pub open spec fn author_texts(st: Seq<Status>, a: Seq<char>) -> Set<Seq<char>> {
    Set::new(
        |x: Seq<char>|
            exists|i: int|
                0 <= i < st.len() && #[trigger] st[i].name@ == a && normalized(st[i].report@)
                    == x,
    )
}

/// The bug numbers referenced by any of `ts`.
pub open spec fn bug_set(ts: Seq<Seq<char>>) -> Set<u32> {
    Set::new(
        |b: u32| exists|j: int| 0 <= j < ts.len() && #[trigger] bug_ids(ts[j]).contains(b),
    )
}

/// The texts that reference no bug.
pub open spec fn unbugged(ts: Seq<Seq<char>>) -> Seq<Seq<char>> {
    ts.filter(no_bug_ref())
}

pub open spec fn no_bug_ref() -> spec_fn(Seq<char>) -> bool {
    |x: Seq<char>| bug_ids(x).len() == 0
}

pub open spec fn refers_to(b: u32) -> spec_fn(Seq<char>) -> bool {
    |x: Seq<char>| bug_ids(x).contains(b)
}

/// The texts that reference bug `b`.
pub open spec fn bucket(ts: Seq<Seq<char>>, b: u32) -> Seq<Seq<char>> {
    ts.filter(refers_to(b))
}

/// The description of bug `b`: the first entry for it in `d`, else the placeholder.
pub open spec fn describe(d: Seq<(u32, String)>, b: u32) -> Seq<char>
    decreases d.len(),
{
    if d.len() == 0 {
        placeholder()
    } else if d[0].0 == b {
        d[0].1@
    } else {
        describe(d.drop_first(), b)
    }
}

pub open spec fn digit_char(n: nat) -> char {
    seq!['0', '1', '2', '3', '4', '5', '6', '7', '8', '9'][(n % 10) as int]
}

/// The decimal digits of `n`.
pub open spec fn decimal(n: nat) -> Seq<char>
    decreases n,
{
    if n < 10 {
        seq![digit_char(n)]
    } else {
        decimal(n / 10).push(digit_char(n))
    }
}

/// One line per text: `marker`, the text, a newline.
pub open spec fn text_lines(ts: Seq<Seq<char>>, marker: Seq<char>) -> Seq<char>
    decreases ts.len(),
{
    if ts.len() == 0 {
        seq![]
    } else {
        text_lines(ts.drop_last(), marker) + marker + ts.last() + seq!['\n']
    }
}

/// `* {{bug|N}} description`, and a newline.
pub open spec fn bug_line(b: u32, d: Seq<(u32, String)>) -> Seq<char> {
    seq!['*', ' ', '{', '{', 'b', 'u', 'g', '|'] + decimal(b as nat) + seq!['}', '}', ' ']
        + describe(d, b) + seq!['\n']
}

/// For each bug of `bs`, its line and the texts of `ts` that reference it.
pub open spec fn bug_sections(ts: Seq<Seq<char>>, bs: Seq<u32>, d: Seq<(u32, String)>) -> Seq<
    char,
>
    decreases bs.len(),
{
    if bs.len() == 0 {
        seq![]
    } else {
        bug_sections(ts, bs.drop_last(), d) + bug_line(bs.last(), d) + text_lines(
            bucket(ts, bs.last()),
            seq!['*', '*', ' '],
        )
    }
}

/// `== author ==` on a line of its own, after an empty line.
pub open spec fn heading(a: Seq<char>) -> Seq<char> {
    seq!['\n', '=', '=', ' '] + a + seq![' ', '=', '=', '\n']
}

/// The section of author `a` whose distinct normalized texts, in order, are `ts`.
pub open spec fn author_section(a: Seq<char>, ts: Seq<Seq<char>>, d: Seq<(u32, String)>) -> Seq<
    char,
> {
    heading(a) + text_lines(unbugged(ts), seq!['*', ' ']) + bug_sections(
        ts,
        sorted_ids(bug_set(ts)),
        d,
    )
}

/// The sections of the authors `authors`, in order.
pub open spec fn author_sections(
    st: Seq<Status>,
    authors: Seq<Seq<char>>,
    d: Seq<(u32, String)>,
) -> Seq<char>
    decreases authors.len(),
{
    if authors.len() == 0 {
        seq![]
    } else {
        author_sections(st, authors.drop_last(), d) + author_section(
            authors.last(),
            sorted_texts(author_texts(st, authors.last())),
            d,
        )
    }
}

/// The digest of the reports `st`, with bug descriptions from `d`: authors in
/// lexicographic order, each author's distinct texts in lexicographic order,
/// bugs in increasing order.
pub open spec fn digest(st: Seq<Status>, d: Seq<(u32, String)>) -> Seq<char> {
    author_sections(st, sorted_texts(author_set(st)), d)
}

/// The distinct bug numbers that the normalized texts of `st` reference.
pub open spec fn referenced_bugs(st: Seq<Status>) -> Set<u32> {
    Set::new(
        |b: u32|
            exists|i: int| 0 <= i < st.len() && #[trigger] bug_ids(normalized(st[i].report@)).contains(b),
    )
}

fn push_all(out: &mut Vec<char>, s: &Vec<char>)
    ensures
        final(out)@ == old(out)@ + s@,
{
    let ghost before = out@;
    let mut k: usize = 0;
    while k < s.len()
        invariant
            k <= s@.len(),
            out@ == before + s@.subrange(0, k as int),
        decreases s@.len() - k,
    {
        out.push(s[k]);
        assert(out@ =~= before + s@.subrange(0, k + 1));
        k = k + 1;
    }
    assert(s@.subrange(0, k as int) =~= s@);
}

fn copy_chars(s: &Vec<char>) -> (r: Vec<char>)
    ensures
        r@ == s@,
{
    let mut r: Vec<char> = Vec::new();
    push_all(&mut r, s);
    assert(r@ =~= s@);
    r
}

fn text_eq(a: &Vec<char>, b: &Vec<char>) -> (r: bool)
    ensures
        r == (a@ == b@),
{
    proof {
        lemma_text_lt_total(a@, b@);
        crate::order::lemma_text_lt_asymmetric(a@, b@);
        crate::order::lemma_text_lt_asymmetric(a@, a@);
    }
    !text_less(a, b) && !text_less(b, a)
}

fn push_decimal(out: &mut Vec<char>, n: u32)
    ensures
        final(out)@ == old(out)@ + decimal(n as nat),
    decreases n,
{
    let digits = vec!['0', '1', '2', '3', '4', '5', '6', '7', '8', '9'];
    assert(digits@ =~= seq!['0', '1', '2', '3', '4', '5', '6', '7', '8', '9']);
    let ghost before = out@;
    if n >= 10 {
        push_decimal(out, n / 10);
    }
    out.push(digits[(n % 10) as usize]);
    assert(out@ =~= before + decimal(n as nat));
}

fn push_describe(out: &mut Vec<char>, d: &Vec<(u32, String)>, b: u32)
    ensures
        final(out)@ == old(out)@ + describe(d@, b),
{
    let ghost before = out@;
    let mut k: usize = 0;
    assert(d@.subrange(0, d@.len() as int) =~= d@);
    while k < d.len()
        invariant
            k <= d@.len(),
            out@ == before,
            before == old(out)@,
            describe(d@, b) == describe(d@.subrange(k as int, d@.len() as int), b),
        decreases d@.len() - k,
    {
        assert(d@.subrange(k as int, d@.len() as int).drop_first() =~= d@.subrange(
            k + 1,
            d@.len() as int,
        ));
        if d[k].0 == b {
            let s = chars_of(d[k].1.as_str());
            assert(s@ == d@[k as int].1@);
            assert(d@.subrange(k as int, d@.len() as int)[0] == d@[k as int]);
            assert(d@[k as int].0 == b);
            assert(describe(d@.subrange(k as int, d@.len() as int), b) == d@[k as int].1@);
            push_all(out, &s);
            return;
        }
        k = k + 1;
    }
    let p = vec![
        'i', 'n', 'v', 'a', 'l', 'i', 'd', ' ', 'o', 'r', ' ', 'i', 'n', 'a', 'c', 'c', 'e', 's',
        's', 'i', 'b', 'l', 'e', ' ', 'b', 'u', 'g',
    ];
    assert(p@ =~= placeholder());
    assert(d@.subrange(k as int, d@.len() as int).len() == 0);
    push_all(out, &p);
}

/// Appends `marker`, `t` and a newline.
fn push_line(out: &mut Vec<char>, marker: &Vec<char>, t: &Vec<char>)
    ensures
        final(out)@ == old(out)@ + marker@ + t@ + seq!['\n'],
{
    push_all(out, marker);
    push_all(out, t);
    out.push('\n');
}

proof fn lemma_push_contains<T>(s: Seq<T>, x: T)
    ensures
        forall|y: T| #[trigger] s.push(x).contains(y) <==> (s.contains(y) || y == x),
{
    lemma_insert_contains(s, s.len() as int, x);
    assert(s.insert(s.len() as int, x) =~= s.push(x));
}

proof fn lemma_filter_step(s: Seq<Seq<char>>, p: spec_fn(Seq<char>) -> bool, k: int)
    requires
        0 <= k < s.len(),
    ensures
        s.take(k + 1).filter(p) == (if p(s[k]) {
            s.take(k).filter(p).push(s[k])
        } else {
            s.take(k).filter(p)
        }),
{
    reveal(Seq::filter);
    assert(s.take(k + 1).drop_last() =~= s.take(k));
    assert(s.take(k + 1).last() == s[k]);
    assert(s.take(k + 1).len() > 0);
}

proof fn lemma_text_lines_push(s: Seq<Seq<char>>, x: Seq<char>, m: Seq<char>)
    ensures
        text_lines(s.push(x), m) == text_lines(s, m) + m + x + seq!['\n'],
{
    assert(s.push(x).drop_last() =~= s);
}

/// The distinct names among `names`, in lexicographic order.
fn distinct_names(names: &Vec<Vec<char>>) -> (r: Vec<Vec<char>>)
    ensures
        strictly_sorted(texts_view(r@), text_order()),
        forall|y: Seq<char>|
            texts_view(r@).contains(y) <==> exists|j: int|
                0 <= j < names@.len() && #[trigger] names@[j]@ == y,
{
    let mut r: Vec<Vec<char>> = Vec::new();
    let mut i: usize = 0;
    while i < names.len()
        invariant
            i <= names@.len(),
            strictly_sorted(texts_view(r@), text_order()),
            forall|y: Seq<char>|
                texts_view(r@).contains(y) <==> exists|j: int|
                    0 <= j < i && #[trigger] names@[j]@ == y,
        decreases names@.len() - i,
    {
        let x = copy_chars(&names[i]);
        insert_text(&mut r, x);
        assert forall|y: Seq<char>|
            texts_view(r@).contains(y) <==> exists|j: int|
                0 <= j < i + 1 && #[trigger] names@[j]@ == y by {
            if y == names@[i as int]@ {
                assert(names@[i as int]@ == y);
            }
        }
        i = i + 1;
    }
    r
}

/// The distinct texts `norms[j]` with `names[j] == a`, in lexicographic order.
fn distinct_texts_of(names: &Vec<Vec<char>>, norms: &Vec<Vec<char>>, a: &Vec<char>) -> (r: Vec<
    Vec<char>,
>)
    requires
        names@.len() == norms@.len(),
    ensures
        strictly_sorted(texts_view(r@), text_order()),
        forall|y: Seq<char>|
            texts_view(r@).contains(y) <==> exists|j: int|
                0 <= j < names@.len() && names@[j]@ == a@ && #[trigger] norms@[j]@ == y,
{
    let mut r: Vec<Vec<char>> = Vec::new();
    let mut i: usize = 0;
    while i < names.len()
        invariant
            i <= names@.len(),
            names@.len() == norms@.len(),
            strictly_sorted(texts_view(r@), text_order()),
            forall|y: Seq<char>|
                texts_view(r@).contains(y) <==> exists|j: int|
                    0 <= j < i && names@[j]@ == a@ && #[trigger] norms@[j]@ == y,
        decreases names@.len() - i,
    {
        if text_eq(&names[i], a) {
            let x = copy_chars(&norms[i]);
            insert_text(&mut r, x);
            assert forall|y: Seq<char>|
                texts_view(r@).contains(y) <==> exists|j: int|
                    0 <= j < i + 1 && names@[j]@ == a@ && #[trigger] norms@[j]@ == y by {
                if y == norms@[i as int]@ {
                    assert(norms@[i as int]@ == y);
                }
            }
        } else {
            assert forall|y: Seq<char>|
                texts_view(r@).contains(y) <==> exists|j: int|
                    0 <= j < i + 1 && names@[j]@ == a@ && #[trigger] norms@[j]@ == y by {
                if exists|j: int| 0 <= j < i + 1 && names@[j]@ == a@ && #[trigger] norms@[j]@ == y {
                    let j = choose|j: int| 0 <= j < i + 1 && names@[j]@ == a@ && #[trigger] norms@[j]@ == y;
                    assert(j != i);
                }
            }
        }
        i = i + 1;
    }
    r
}

fn ids_per_text(ts: &Vec<Vec<char>>) -> (r: Vec<Vec<u32>>)
    ensures
        r@.len() == ts@.len(),
        forall|k: int| 0 <= k < ts@.len() ==> #[trigger] r@[k]@ == bug_ids(ts@[k]@),
{
    let mut r: Vec<Vec<u32>> = Vec::new();
    let mut k: usize = 0;
    while k < ts.len()
        invariant
            k <= ts@.len(),
            r@.len() == k,
            forall|m: int| 0 <= m < k ==> #[trigger] r@[m]@ == bug_ids(ts@[m]@),
        decreases ts@.len() - k,
    {
        r.push(bug_ids_of(&ts[k]));
        k = k + 1;
    }
    r
}

fn contains_id(v: &Vec<u32>, b: u32) -> (r: bool)
    ensures
        r == v@.contains(b),
{
    let mut k: usize = 0;
    while k < v.len()
        invariant
            k <= v@.len(),
            forall|m: int| 0 <= m < k ==> v@[m] != b,
        decreases v@.len() - k,
    {
        if v[k] == b {
            assert(v@[k as int] == b);
            return true;
        }
        k = k + 1;
    }
    false
}

fn push_unbugged(out: &mut Vec<char>, ts: &Vec<Vec<char>>, ids: &Vec<Vec<u32>>)
    requires
        ids@.len() == ts@.len(),
        forall|k: int| 0 <= k < ts@.len() ==> #[trigger] ids@[k]@ == bug_ids(ts@[k]@),
    ensures
        final(out)@ == old(out)@ + text_lines(unbugged(texts_view(ts@)), seq!['*', ' ']),
{
    let ghost tv = texts_view(ts@);
    let ghost before = out@;
    let marker = vec!['*', ' '];
    assert(marker@ =~= seq!['*', ' ']);
    let mut k: usize = 0;
    assert(tv.take(0).filter(no_bug_ref()) =~= seq![]) by {
        reveal(Seq::filter);
    }
    while k < ts.len()
        invariant
            k <= ts@.len(),
            tv == texts_view(ts@),
            marker@ == seq!['*', ' '],
            ids@.len() == ts@.len(),
            forall|m: int| 0 <= m < ts@.len() ==> #[trigger] ids@[m]@ == bug_ids(ts@[m]@),
            out@ == before + text_lines(tv.take(k as int).filter(no_bug_ref()), marker@),
        decreases ts@.len() - k,
    {
        proof {
            lemma_filter_step(tv, no_bug_ref(), k as int);
        }
        assert(tv[k as int] == ts@[k as int]@);
        if ids[k].len() == 0 {
            proof {
                lemma_text_lines_push(tv.take(k as int).filter(no_bug_ref()), tv[k as int], marker@);
            }
            push_line(out, &marker, &ts[k]);
            assert(out@ =~= before + text_lines(tv.take(k + 1).filter(no_bug_ref()), marker@));
        }
        k = k + 1;
    }
    assert(tv.take(k as int) =~= tv);
}

fn push_bucket(out: &mut Vec<char>, ts: &Vec<Vec<char>>, ids: &Vec<Vec<u32>>, b: u32)
    requires
        ids@.len() == ts@.len(),
        forall|k: int| 0 <= k < ts@.len() ==> #[trigger] ids@[k]@ == bug_ids(ts@[k]@),
    ensures
        final(out)@ == old(out)@ + text_lines(bucket(texts_view(ts@), b), seq!['*', '*', ' ']),
{
    let ghost tv = texts_view(ts@);
    let ghost before = out@;
    let marker = vec!['*', '*', ' '];
    assert(marker@ =~= seq!['*', '*', ' ']);
    let mut k: usize = 0;
    assert(tv.take(0).filter(refers_to(b)) =~= seq![]) by {
        reveal(Seq::filter);
    }
    while k < ts.len()
        invariant
            k <= ts@.len(),
            tv == texts_view(ts@),
            marker@ == seq!['*', '*', ' '],
            ids@.len() == ts@.len(),
            forall|m: int| 0 <= m < ts@.len() ==> #[trigger] ids@[m]@ == bug_ids(ts@[m]@),
            out@ == before + text_lines(tv.take(k as int).filter(refers_to(b)), marker@),
        decreases ts@.len() - k,
    {
        proof {
            lemma_filter_step(tv, refers_to(b), k as int);
        }
        assert(tv[k as int] == ts@[k as int]@);
        if contains_id(&ids[k], b) {
            proof {
                lemma_text_lines_push(tv.take(k as int).filter(refers_to(b)), tv[k as int], marker@);
            }
            push_line(out, &marker, &ts[k]);
            assert(out@ =~= before + text_lines(tv.take(k + 1).filter(refers_to(b)), marker@));
        }
        k = k + 1;
    }
    assert(tv.take(k as int) =~= tv);
}

/// The distinct numbers of `ids`, in increasing order.
fn distinct_ids(ids: &Vec<Vec<u32>>) -> (r: Vec<u32>)
    ensures
        strictly_sorted(r@, id_order()),
        forall|b: u32|
            r@.contains(b) <==> exists|j: int| 0 <= j < ids@.len() && #[trigger] ids@[j]@.contains(b),
{
    let mut r: Vec<u32> = Vec::new();
    let mut j: usize = 0;
    while j < ids.len()
        invariant
            j <= ids@.len(),
            strictly_sorted(r@, id_order()),
            forall|b: u32|
                r@.contains(b) <==> exists|m: int| 0 <= m < j && #[trigger] ids@[m]@.contains(b),
        decreases ids@.len() - j,
    {
        let ghost start = r@;
        let v = &ids[j];
        let mut k: usize = 0;
        while k < v.len()
            invariant
                k <= v@.len(),
                j < ids@.len(),
                v@ == ids@[j as int]@,
                strictly_sorted(r@, id_order()),
                forall|b: u32|
                    r@.contains(b) <==> (start.contains(b) || v@.take(k as int).contains(b)),
            decreases v@.len() - k,
        {
            let ghost prev = r@;
            assert(forall|b: u32|
                prev.contains(b) <==> (start.contains(b) || v@.take(k as int).contains(b)));
            insert_id(&mut r, v[k]);
            proof {
                lemma_push_contains(v@.take(k as int), v@[k as int]);
                assert(v@.take(k + 1) =~= v@.take(k as int).push(v@[k as int]));
                assert forall|b: u32|
                    r@.contains(b) <==> (start.contains(b) || v@.take(k + 1).contains(b)) by {
                    assert(prev.contains(b) <==> (start.contains(b) || v@.take(k as int).contains(
                        b,
                    )));
                    assert(r@.contains(b) <==> (prev.contains(b) || b == v@[k as int]));
                    assert(v@.take(k + 1).contains(b) <==> (v@.take(k as int).contains(b) || b
                        == v@[k as int]));
                }
            }
            k = k + 1;
        }
        assert(v@.take(k as int) =~= v@);
        assert forall|b: u32|
            r@.contains(b) <==> exists|m: int| 0 <= m < j + 1 && #[trigger] ids@[m]@.contains(b) by {
            if exists|m: int| 0 <= m < j + 1 && #[trigger] ids@[m]@.contains(b) {
                let m = choose|m: int| 0 <= m < j + 1 && #[trigger] ids@[m]@.contains(b);
                if m < j {
                    assert(start.contains(b));
                } else {
                    assert(v@.contains(b));
                }
            }
            if r@.contains(b) {
                if !start.contains(b) {
                    assert(v@.contains(b));
                    assert(ids@[j as int]@.contains(b));
                }
            }
        }
        j = j + 1;
    }
    r
}

fn push_bug_sections(
    out: &mut Vec<char>,
    ts: &Vec<Vec<char>>,
    ids: &Vec<Vec<u32>>,
    bs: &Vec<u32>,
    d: &Vec<(u32, String)>,
)
    requires
        ids@.len() == ts@.len(),
        forall|k: int| 0 <= k < ts@.len() ==> #[trigger] ids@[k]@ == bug_ids(ts@[k]@),
    ensures
        final(out)@ == old(out)@ + bug_sections(texts_view(ts@), bs@, d@),
{
    let ghost tv = texts_view(ts@);
    let ghost before = out@;
    let head = vec!['*', ' ', '{', '{', 'b', 'u', 'g', '|'];
    let mid = vec!['}', '}', ' '];
    assert(head@ =~= seq!['*', ' ', '{', '{', 'b', 'u', 'g', '|']);
    assert(mid@ =~= seq!['}', '}', ' ']);
    let mut k: usize = 0;
    assert(bug_sections(tv, bs@.take(0), d@) == Seq::<char>::empty());
    assert(out@ =~= before + bug_sections(tv, bs@.take(0), d@));
    while k < bs.len()
        invariant
            k <= bs@.len(),
            tv == texts_view(ts@),
            head@ == seq!['*', ' ', '{', '{', 'b', 'u', 'g', '|'],
            mid@ == seq!['}', '}', ' '],
            ids@.len() == ts@.len(),
            forall|m: int| 0 <= m < ts@.len() ==> #[trigger] ids@[m]@ == bug_ids(ts@[m]@),
            out@ == before + bug_sections(tv, bs@.take(k as int), d@),
        decreases bs@.len() - k,
    {
        let b = bs[k];
        let ghost at_start = out@;
        push_all(out, &head);
        push_decimal(out, b);
        push_all(out, &mid);
        push_describe(out, d, b);
        out.push('\n');
        assert(out@ =~= at_start + bug_line(b, d@));
        push_bucket(out, ts, ids, b);
        assert(bs@.take(k + 1).drop_last() =~= bs@.take(k as int));
        assert(bs@.take(k + 1).last() == b);
        assert(out@ =~= before + bug_sections(tv, bs@.take(k + 1), d@));
        k = k + 1;
    }
    assert(bs@.take(k as int) =~= bs@);
}

/// Appends the section of author `a`, whose distinct texts in order are `ts`.
fn push_author_section(
    out: &mut Vec<char>,
    a: &Vec<char>,
    ts: &Vec<Vec<char>>,
    d: &Vec<(u32, String)>,
)
    ensures
        final(out)@ == old(out)@ + author_section(a@, texts_view(ts@), d@),
{
    let ghost tv = texts_view(ts@);
    let ghost before = out@;
    let open = vec!['\n', '=', '=', ' '];
    let close = vec![' ', '=', '=', '\n'];
    assert(open@ =~= seq!['\n', '=', '=', ' ']);
    assert(close@ =~= seq![' ', '=', '=', '\n']);
    push_all(out, &open);
    push_all(out, a);
    push_all(out, &close);
    let ghost after_heading = out@;
    let ids = ids_per_text(ts);
    push_unbugged(out, ts, &ids);
    let ghost after_unbugged = out@;
    let bs = distinct_ids(&ids);
    proof {
        assert forall|b: u32| bs@.contains(b) <==> bug_set(tv).contains(b) by {
            if bs@.contains(b) {
                let j = choose|j: int| 0 <= j < ids@.len() && #[trigger] ids@[j]@.contains(b);
                assert(bug_ids(tv[j]).contains(b));
            }
            if bug_set(tv).contains(b) {
                let j = choose|j: int| 0 <= j < tv.len() && #[trigger] bug_ids(tv[j]).contains(b);
                assert(ids@[j]@.contains(b));
            }
        }
        lemma_sorted_ids_is(bs@, bug_set(tv));
    }
    push_bug_sections(out, ts, &ids, &bs, d);
    assert(out@ =~= before + author_section(a@, tv, d@));
}

/// The names and normalized texts of the reports, as character vectors.
fn report_columns(statuses: &Vec<Status>) -> (r: (Vec<Vec<char>>, Vec<Vec<char>>))
    ensures
        r.0@.len() == statuses@.len(),
        r.1@.len() == statuses@.len(),
        forall|i: int| 0 <= i < statuses@.len() ==> #[trigger] r.0@[i]@ == statuses@[i].name@,
        forall|i: int|
            0 <= i < statuses@.len() ==> #[trigger] r.1@[i]@ == normalized(statuses@[i].report@),
{
    let mut names: Vec<Vec<char>> = Vec::new();
    let mut norms: Vec<Vec<char>> = Vec::new();
    let mut i: usize = 0;
    while i < statuses.len()
        invariant
            i <= statuses@.len(),
            names@.len() == i,
            norms@.len() == i,
            forall|m: int| 0 <= m < i ==> #[trigger] names@[m]@ == statuses@[m].name@,
            forall|m: int| 0 <= m < i ==> #[trigger] norms@[m]@ == normalized(statuses@[m].report@),
        decreases statuses@.len() - i,
    {
        let st = &statuses[i];
        names.push(chars_of(st.name.as_str()));
        let raw = chars_of(st.report.as_str());
        norms.push(normalize_chars(&raw));
        i = i + 1;
    }
    (names, norms)
}

/// The distinct bug numbers referenced by the normalized texts of the
/// reports, in increasing order: what is to be asked of the bug resolver.
pub fn bug_numbers_to_resolve(statuses: &Vec<Status>) -> (r: Vec<u32>)
    ensures
        strictly_sorted(r@, id_order()),
        holds_exactly(r@, referenced_bugs(statuses@)),
        r@ == sorted_ids(referenced_bugs(statuses@)),
{
    let (_names, norms) = report_columns(statuses);
    let ids = ids_per_text(&norms);
    let r = distinct_ids(&ids);
    proof {
        let st = statuses@;
        assert forall|b: u32| r@.contains(b) <==> referenced_bugs(st).contains(b) by {
            if r@.contains(b) {
                let j = choose|j: int| 0 <= j < ids@.len() && #[trigger] ids@[j]@.contains(b);
                assert(ids@[j]@ == bug_ids(norms@[j]@));
                assert(bug_ids(normalized(st[j].report@)).contains(b));
            }
            if referenced_bugs(st).contains(b) {
                let j = choose|j: int|
                    0 <= j < st.len() && #[trigger] bug_ids(normalized(st[j].report@)).contains(b);
                assert(ids@[j]@ == bug_ids(norms@[j]@));
                assert(ids@[j]@.contains(b));
            }
        }
        lemma_sorted_ids_is(r@, referenced_bugs(st));
    }
    r
}

/// The digest of `statuses`, with the descriptions of bugs taken from
/// `bug_details` (the first entry for a number wins; a number without an
/// entry is shown with a placeholder).
pub fn summarize_reports(statuses: &Vec<Status>, bug_details: &Vec<(u32, String)>) -> (r: String)
    ensures
        r@ == digest(statuses@, bug_details@),
{
    let ghost st = statuses@;
    let (names, norms) = report_columns(statuses);
    let authors = distinct_names(&names);
    let ghost av = texts_view(authors@);
    proof {
        assert forall|y: Seq<char>| av.contains(y) <==> author_set(st).contains(y) by {
            if av.contains(y) {
                let j = choose|j: int| 0 <= j < names@.len() && #[trigger] names@[j]@ == y;
                assert(st[j].name@ == y);
            }
            if author_set(st).contains(y) {
                let j = choose|j: int| 0 <= j < st.len() && #[trigger] st[j].name@ == y;
                assert(names@[j]@ == y);
            }
        }
        lemma_sorted_texts_is(av, author_set(st));
    }
    let mut out: Vec<char> = Vec::new();
    let mut ai: usize = 0;
    assert(out@ =~= author_sections(st, av.take(0), bug_details@));
    while ai < authors.len()
        invariant
            ai <= authors@.len(),
            av == texts_view(authors@),
            st == statuses@,
            names@.len() == st.len(),
            norms@.len() == st.len(),
            forall|i: int| 0 <= i < st.len() ==> #[trigger] names@[i]@ == st[i].name@,
            forall|i: int| 0 <= i < st.len() ==> #[trigger] norms@[i]@ == normalized(st[i].report@),
            out@ == author_sections(st, av.take(ai as int), bug_details@),
        decreases authors@.len() - ai,
    {
        let a = &authors[ai];
        let ts = distinct_texts_of(&names, &norms, a);
        proof {
            let tv = texts_view(ts@);
            assert forall|y: Seq<char>| tv.contains(y) <==> author_texts(st, a@).contains(y) by {
                if tv.contains(y) {
                    let j = choose|j: int|
                        0 <= j < names@.len() && names@[j]@ == a@ && #[trigger] norms@[j]@ == y;
                    assert(st[j].name@ == a@);
                    assert(normalized(st[j].report@) == y);
                }
                if author_texts(st, a@).contains(y) {
                    let j = choose|j: int|
                        0 <= j < st.len() && #[trigger] st[j].name@ == a@ && normalized(st[j].report@) == y;
                    assert(names@[j]@ == a@);
                    assert(norms@[j]@ == y);
                }
            }
            lemma_sorted_texts_is(tv, author_texts(st, a@));
        }
        push_author_section(&mut out, a, &ts, bug_details);
        assert(av.take(ai + 1).drop_last() =~= av.take(ai as int));
        assert(av.take(ai + 1).last() == a@);
        ai = ai + 1;
    }
    assert(av.take(ai as int) =~= av);
    string_of(&out)
}

} // verus!
