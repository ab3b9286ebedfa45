//! Properties of the digest that relate several inputs.

use vstd::prelude::*;
use crate::normalize::normalized;
use crate::bugs::bug_ids;
use crate::digest::{
    Status, author_set, author_texts, author_sections, digest, bug_set, bucket, unbugged,
    refers_to, no_bug_ref, describe, placeholder, bug_line, bug_sections, author_section,
    decimal,
};
use crate::order::{
    strictly_sorted, holds_exactly, text_order, id_order, sorted_texts, sorted_ids,
    sorted_insert, lemma_sorted_insert, lemma_text_order_total, lemma_insert_ids,
    lemma_sorted_texts_is, lemma_sorted_ids_is,
};

verus! {

/// The two report lists hold the same reports, by author and text, whatever
/// their order, repeats, ids and times.
pub open spec fn same_reports(st1: Seq<Status>, st2: Seq<Status>) -> bool {
    &&& forall|i: int|
        #![trigger st1[i]]
        0 <= i < st1.len() ==> exists|j: int|
            0 <= j < st2.len() && #[trigger] st2[j].name@ == st1[i].name@ && st2[j].report@
                == st1[i].report@
    &&& forall|j: int|
        #![trigger st2[j]]
        0 <= j < st2.len() ==> exists|i: int|
            0 <= i < st1.len() && #[trigger] st1[i].name@ == st2[j].name@ && st1[i].report@
                == st2[j].report@
}

proof fn lemma_same_groups(st1: Seq<Status>, st2: Seq<Status>)
    requires
        same_reports(st1, st2),
    ensures
        author_set(st1) == author_set(st2),
        forall|a: Seq<char>| #[trigger] author_texts(st1, a) == author_texts(st2, a),
{
    assert forall|a: Seq<char>| author_set(st1).contains(a) implies author_set(st2).contains(a) by {
        let i = choose|i: int| 0 <= i < st1.len() && #[trigger] st1[i].name@ == a;
        let j = choose|j: int|
            0 <= j < st2.len() && #[trigger] st2[j].name@ == st1[i].name@ && st2[j].report@
                == st1[i].report@;
        assert(st2[j].name@ == a);
    }
    assert forall|a: Seq<char>| author_set(st2).contains(a) implies author_set(st1).contains(a) by {
        let j = choose|j: int| 0 <= j < st2.len() && #[trigger] st2[j].name@ == a;
        let i = choose|i: int|
            0 <= i < st1.len() && #[trigger] st1[i].name@ == st2[j].name@ && st1[i].report@
                == st2[j].report@;
        assert(st1[i].name@ == a);
    }
    assert(author_set(st1) =~= author_set(st2));
    assert forall|a: Seq<char>| #[trigger] author_texts(st1, a) == author_texts(st2, a) by {
        assert forall|x: Seq<char>| author_texts(st1, a).contains(x) implies author_texts(
            st2,
            a,
        ).contains(x) by {
            let i = choose|i: int|
                0 <= i < st1.len() && #[trigger] st1[i].name@ == a && normalized(st1[i].report@)
                    == x;
            let j = choose|j: int|
                0 <= j < st2.len() && #[trigger] st2[j].name@ == st1[i].name@ && st2[j].report@
                    == st1[i].report@;
            assert(st2[j].name@ == a && normalized(st2[j].report@) == x);
        }
        assert forall|x: Seq<char>| author_texts(st2, a).contains(x) implies author_texts(
            st1,
            a,
        ).contains(x) by {
            let j = choose|j: int|
                0 <= j < st2.len() && #[trigger] st2[j].name@ == a && normalized(st2[j].report@)
                    == x;
            let i = choose|i: int|
                0 <= i < st1.len() && #[trigger] st1[i].name@ == st2[j].name@ && st1[i].report@
                    == st2[j].report@;
            assert(st1[i].name@ == a && normalized(st1[i].report@) == x);
        }
        assert(author_texts(st1, a) =~= author_texts(st2, a));
    }
}

proof fn lemma_same_sections(
    st1: Seq<Status>,
    st2: Seq<Status>,
    authors: Seq<Seq<char>>,
    d: Seq<(u32, String)>,
)
    requires
        forall|a: Seq<char>| #[trigger] author_texts(st1, a) == author_texts(st2, a),
    ensures
        author_sections(st1, authors, d) == author_sections(st2, authors, d),
    decreases authors.len(),
{
    if authors.len() > 0 {
        lemma_same_sections(st1, st2, authors.drop_last(), d);
        assert(author_texts(st1, authors.last()) == author_texts(st2, authors.last()));
    }
}

/// The digest depends only on which (author, text) reports there are: two
/// report lists with the same reports, in any order and with any repeats,
/// give byte-identical digests for the same bug descriptions.
pub proof fn lemma_digest_deterministic(st1: Seq<Status>, st2: Seq<Status>, d: Seq<(u32, String)>)
    requires
        same_reports(st1, st2),
    ensures
        digest(st1, d) == digest(st2, d),
{
    lemma_same_groups(st1, st2);
    lemma_same_sections(st1, st2, crate::order::sorted_texts(author_set(st1)), d);
}

/// Where `st[i]` and `st[j]` have the same author and the same normalized
/// text, leaving out `st[j]` changes nothing in the digest: texts are listed
/// once per author.
pub proof fn lemma_duplicate_text_ignored(st: Seq<Status>, i: int, j: int, d: Seq<(u32, String)>)
    requires
        0 <= i < st.len(),
        0 <= j < st.len(),
        i != j,
        st[i].name@ == st[j].name@,
        normalized(st[i].report@) == normalized(st[j].report@),
    ensures
        digest(st.remove(j), d) == digest(st, d),
{
    let s2 = st.remove(j);
    let i2 = if i < j {
        i
    } else {
        i - 1
    };
    assert(s2[i2] == st[i]);
    assert forall|a: Seq<char>| author_set(s2).contains(a) implies author_set(st).contains(a) by {
        let k = choose|k: int| 0 <= k < s2.len() && #[trigger] s2[k].name@ == a;
        if k < j {
            assert(st[k].name@ == a);
        } else {
            assert(st[k + 1].name@ == a);
        }
    }
    assert forall|a: Seq<char>| author_set(st).contains(a) implies author_set(s2).contains(a) by {
        let k = choose|k: int| 0 <= k < st.len() && #[trigger] st[k].name@ == a;
        if k < j {
            assert(s2[k].name@ == a);
        } else if k > j {
            assert(s2[k - 1].name@ == a);
        } else {
            assert(s2[i2].name@ == a);
        }
    }
    assert(author_set(s2) =~= author_set(st));
    assert forall|a: Seq<char>| #[trigger] author_texts(s2, a) == author_texts(st, a) by {
        assert forall|x: Seq<char>| author_texts(s2, a).contains(x) implies author_texts(
            st,
            a,
        ).contains(x) by {
            let k = choose|k: int|
                0 <= k < s2.len() && #[trigger] s2[k].name@ == a && normalized(s2[k].report@)
                    == x;
            if k < j {
                assert(st[k].name@ == a && normalized(st[k].report@) == x);
            } else {
                assert(st[k + 1].name@ == a && normalized(st[k + 1].report@) == x);
            }
        }
        assert forall|x: Seq<char>| author_texts(st, a).contains(x) implies author_texts(
            s2,
            a,
        ).contains(x) by {
            let k = choose|k: int|
                0 <= k < st.len() && #[trigger] st[k].name@ == a && normalized(st[k].report@)
                    == x;
            if k < j {
                assert(s2[k].name@ == a && normalized(s2[k].report@) == x);
            } else if k > j {
                assert(s2[k - 1].name@ == a && normalized(s2[k - 1].report@) == x);
            } else {
                assert(s2[i2].name@ == a && normalized(s2[i2].report@) == x);
            }
        }
        assert(author_texts(s2, a) =~= author_texts(st, a));
    }
    lemma_same_sections(s2, st, crate::order::sorted_texts(author_set(st)), d);
}

/// A strictly sorted enumeration of the texts of author `a`.
proof fn lemma_author_texts_listed(st: Seq<Status>, a: Seq<char>) -> (q: Seq<Seq<char>>)
    ensures
        strictly_sorted(q, text_order()),
        holds_exactly(q, author_texts(st, a)),
    decreases st.len(),
{
    if st.len() == 0 {
        let q = Seq::<Seq<char>>::empty();
        assert forall|y: Seq<char>| q.contains(y) <==> author_texts(st, a).contains(y) by {}
        q
    } else {
        let p = st.drop_last();
        let q0 = lemma_author_texts_listed(p, a);
        let last = st[st.len() - 1];
        let x = normalized(last.report@);
        let q = if last.name@ == a {
            lemma_text_order_total();
            lemma_sorted_insert(q0, x, text_order());
            sorted_insert(q0, x, text_order())
        } else {
            q0
        };
        assert forall|y: Seq<char>| q.contains(y) <==> author_texts(st, a).contains(y) by {
            if author_texts(st, a).contains(y) {
                let i = choose|i: int|
                    0 <= i < st.len() && #[trigger] st[i].name@ == a && normalized(st[i].report@)
                        == y;
                if i < st.len() - 1 {
                    assert(p[i].name@ == a && normalized(p[i].report@) == y);
                    assert(author_texts(p, a).contains(y));
                }
            }
            if author_texts(p, a).contains(y) {
                let i = choose|i: int|
                    0 <= i < p.len() && #[trigger] p[i].name@ == a && normalized(p[i].report@)
                        == y;
                assert(st[i].name@ == a && normalized(st[i].report@) == y);
            }
            if last.name@ == a && y == x {
                assert(st[st.len() - 1].name@ == a);
            }
        }
        q
    }
}

/// A strictly increasing enumeration of the bugs that `ts` reference.
proof fn lemma_bug_set_listed(ts: Seq<Seq<char>>) -> (q: Seq<u32>)
    ensures
        strictly_sorted(q, id_order()),
        holds_exactly(q, bug_set(ts)),
    decreases ts.len(),
{
    if ts.len() == 0 {
        let q = Seq::<u32>::empty();
        assert forall|y: u32| q.contains(y) <==> bug_set(ts).contains(y) by {}
        q
    } else {
        let p = ts.drop_last();
        let q0 = lemma_bug_set_listed(p);
        let q = lemma_insert_ids(q0, bug_ids(ts.last()));
        assert forall|y: u32| q.contains(y) <==> bug_set(ts).contains(y) by {
            if bug_set(ts).contains(y) {
                let j = choose|j: int| 0 <= j < ts.len() && #[trigger] bug_ids(ts[j]).contains(y);
                if j < ts.len() - 1 {
                    assert(bug_ids(p[j]).contains(y));
                }
            }
            if bug_set(p).contains(y) {
                let j = choose|j: int| 0 <= j < p.len() && #[trigger] bug_ids(p[j]).contains(y);
                assert(bug_ids(ts[j]).contains(y));
            }
            if bug_ids(ts.last()).contains(y) {
                assert(bug_ids(ts[ts.len() - 1]).contains(y));
            }
        }
        q
    }
}

/// A report whose normalized text references bugs `b1` and `b2` is listed in
/// its author's section, under the line of each of the two bugs, and not
/// among that author's texts without bugs.
pub proof fn lemma_report_under_each_bug(st: Seq<Status>, i: int, b1: u32, b2: u32)
    requires
        0 <= i < st.len(),
        bug_ids(normalized(st[i].report@)).contains(b1),
        bug_ids(normalized(st[i].report@)).contains(b2),
    ensures
        ({
            let ts = sorted_texts(author_texts(st, st[i].name@));
            let x = normalized(st[i].report@);
            &&& ts.contains(x)
            &&& sorted_ids(bug_set(ts)).contains(b1)
            &&& sorted_ids(bug_set(ts)).contains(b2)
            &&& bucket(ts, b1).contains(x)
            &&& bucket(ts, b2).contains(x)
            &&& !unbugged(ts).contains(x)
        }),
{
    let a = st[i].name@;
    let x = normalized(st[i].report@);
    let q = lemma_author_texts_listed(st, a);
    lemma_sorted_texts_is(q, author_texts(st, a));
    let ts = sorted_texts(author_texts(st, a));
    assert(author_texts(st, a).contains(x));
    assert(ts.contains(x));
    let k = choose|k: int| 0 <= k < ts.len() && ts[k] == x;
    let bq = lemma_bug_set_listed(ts);
    lemma_sorted_ids_is(bq, bug_set(ts));
    assert(bug_ids(ts[k]).contains(b1));
    assert(bug_ids(ts[k]).contains(b2));
    assert(bug_set(ts).contains(b1));
    assert(bug_set(ts).contains(b2));
    ts.lemma_filter_contains(refers_to(b1), k);
    ts.lemma_filter_contains(refers_to(b2), k);
    if unbugged(ts).contains(x) {
        let m = choose|m: int| 0 <= m < unbugged(ts).len() && unbugged(ts)[m] == x;
        ts.lemma_filter_pred(no_bug_ref(), m);
    }
}

/// A bug that `d` has no entry for is described by the placeholder.
pub proof fn lemma_describe_missing(d: Seq<(u32, String)>, b: u32)
    requires
        forall|k: int| 0 <= k < d.len() ==> #[trigger] d[k].0 != b,
    ensures
        describe(d, b) == placeholder(),
    decreases d.len(),
{
    if d.len() > 0 {
        assert(d[0].0 != b);
        assert forall|k: int| 0 <= k < d.drop_first().len() implies #[trigger] d.drop_first()[k].0
            != b by {
            assert(d[k + 1].0 != b);
        }
        lemma_describe_missing(d.drop_first(), b);
    }
}

/// The bug sections hold the line of each bug of `bs`.
proof fn lemma_bug_sections_line(
    ts: Seq<Seq<char>>,
    bs: Seq<u32>,
    d: Seq<(u32, String)>,
    k: int,
) -> (r: (Seq<char>, Seq<char>))
    requires
        0 <= k < bs.len(),
    ensures
        bug_sections(ts, bs, d) == r.0 + bug_line(bs[k], d) + r.1,
    decreases bs.len(),
{
    let m = seq!['*', '*', ' '];
    if k == bs.len() - 1 {
        let x = bug_sections(ts, bs.drop_last(), d);
        let y = crate::digest::text_lines(bucket(ts, bs.last()), m);
        (x, y)
    } else {
        let (x, y) = lemma_bug_sections_line(ts, bs.drop_last(), d, k);
        assert(bs.drop_last()[k] == bs[k]);
        let y2 = y + bug_line(bs.last(), d) + crate::digest::text_lines(bucket(ts, bs.last()), m);
        assert(bug_sections(ts, bs, d) =~= x + bug_line(bs[k], d) + y2);
        (x, y2)
    }
}

/// A bug referenced by a report that the resolver did not describe gets,
/// in its author's section, the line `* {{bug|N}} ` with the placeholder
/// text in place of a description.
pub proof fn lemma_unknown_bug_placeholder(st: Seq<Status>, i: int, b: u32, d: Seq<(u32, String)>)
    requires
        0 <= i < st.len(),
        bug_ids(normalized(st[i].report@)).contains(b),
        forall|k: int| 0 <= k < d.len() ==> #[trigger] d[k].0 != b,
    ensures
        exists|x: Seq<char>, y: Seq<char>|
            author_section(st[i].name@, sorted_texts(author_texts(st, st[i].name@)), d) == x
                + seq!['*', ' ', '{', '{', 'b', 'u', 'g', '|'] + decimal(b as nat) + seq![
                '}',
                '}',
                ' ',
            ] + placeholder() + seq!['\n'] + y,
{
    let a = st[i].name@;
    let ts = sorted_texts(author_texts(st, a));
    lemma_report_under_each_bug(st, i, b, b);
    let bs = sorted_ids(bug_set(ts));
    let k = choose|k: int| 0 <= k < bs.len() && bs[k] == b;
    let (x, y) = lemma_bug_sections_line(ts, bs, d, k);
    lemma_describe_missing(d, b);
    let head = crate::digest::heading(a) + unbugged_lines(ts);
    let line = seq!['*', ' ', '{', '{', 'b', 'u', 'g', '|'] + decimal(b as nat) + seq![
        '}',
        '}',
        ' ',
    ] + placeholder() + seq!['\n'];
    assert(bug_line(b, d) == line);
    assert(author_section(a, ts, d) =~= (head + x) + line + y);
    let w = head + x;
    assert(author_section(a, ts, d) =~= w + seq!['*', ' ', '{', '{', 'b', 'u', 'g', '|'] + decimal(
        b as nat,
    ) + seq!['}', '}', ' '] + placeholder() + seq!['\n'] + y);
}

spec fn unbugged_lines(ts: Seq<Seq<char>>) -> Seq<char> {
    crate::digest::text_lines(unbugged(ts), seq!['*', ' '])
}

} // verus!
