//! Strictly sorted sequences: the lexicographic order on texts, sorted
//! insertion without repeats, and the fact that a strictly sorted sequence
//! is fixed by the set of its elements.

use vstd::prelude::*;

verus! {

/// Lexicographic order on character sequences, by code point.
pub open spec fn text_lt(a: Seq<char>, b: Seq<char>) -> bool
    decreases a.len(),
{
    if a.len() == 0 {
        b.len() > 0
    } else if b.len() == 0 {
        false
    } else if a[0] != b[0] {
        a[0] < b[0]
    } else {
        text_lt(a.drop_first(), b.drop_first())
    }
}

pub open spec fn text_order() -> spec_fn(Seq<char>, Seq<char>) -> bool {
    |a: Seq<char>, b: Seq<char>| text_lt(a, b)
}

pub open spec fn id_order() -> spec_fn(u32, u32) -> bool {
    |a: u32, b: u32| a < b
}

/// Each element is below every later one.
pub open spec fn strictly_sorted<T>(s: Seq<T>, lt: spec_fn(T, T) -> bool) -> bool {
    forall|i: int, j: int| 0 <= i < j < s.len() ==> lt(s[i], s[j])
}

/// `s` holds exactly the elements of `e`.
pub open spec fn holds_exactly<T>(s: Seq<T>, e: Set<T>) -> bool {
    forall|x: T| s.contains(x) <==> e.contains(x)
}

pub open spec fn asymmetric<T>(lt: spec_fn(T, T) -> bool) -> bool {
    forall|a: T, b: T| #[trigger] lt(a, b) ==> !lt(b, a)
}

/// The strictly sorted sequence of the texts in `e`.
pub open spec fn sorted_texts(e: Set<Seq<char>>) -> Seq<Seq<char>> {
    choose|q: Seq<Seq<char>>| strictly_sorted(q, text_order()) && holds_exactly(q, e)
}

/// The strictly increasing sequence of the numbers in `e`.
pub open spec fn sorted_ids(e: Set<u32>) -> Seq<u32> {
    choose|q: Seq<u32>| strictly_sorted(q, id_order()) && holds_exactly(q, e)
}

pub open spec fn texts_view(v: Seq<Vec<char>>) -> Seq<Seq<char>> {
    v.map_values(|e: Vec<char>| e@)
}

pub proof fn lemma_text_lt_asymmetric(a: Seq<char>, b: Seq<char>)
    ensures
        text_lt(a, b) ==> !text_lt(b, a),
    decreases a.len(),
{
    if a.len() > 0 && b.len() > 0 && a[0] == b[0] {
        lemma_text_lt_asymmetric(a.drop_first(), b.drop_first());
    }
}

pub proof fn lemma_text_lt_total(a: Seq<char>, b: Seq<char>)
    ensures
        a != b ==> text_lt(a, b) || text_lt(b, a),
    decreases a.len(),
{
    if a.len() > 0 && b.len() > 0 && a[0] == b[0] {
        lemma_text_lt_total(a.drop_first(), b.drop_first());
        if a.drop_first() == b.drop_first() {
            assert(a =~= seq![a[0]] + a.drop_first());
            assert(b =~= seq![b[0]] + b.drop_first());
        }
    } else if a.len() == 0 && b.len() == 0 {
        assert(a =~= b);
    }
}

pub proof fn lemma_text_lt_transitive(a: Seq<char>, b: Seq<char>, c: Seq<char>)
    ensures
        text_lt(a, b) && text_lt(b, c) ==> text_lt(a, c),
    decreases a.len(),
{
    if a.len() > 0 && b.len() > 0 && c.len() > 0 {
        lemma_text_lt_transitive(a.drop_first(), b.drop_first(), c.drop_first());
    }
}

pub proof fn lemma_text_order_asymmetric()
    ensures
        asymmetric(text_order()),
{
    assert forall|a: Seq<char>, b: Seq<char>| #[trigger] text_order()(a, b) implies !text_order()(b, a) by {
        lemma_text_lt_asymmetric(a, b);
    }
}

/// Two strictly sorted sequences with the same elements are equal.
pub proof fn lemma_sorted_unique<T>(s1: Seq<T>, s2: Seq<T>, lt: spec_fn(T, T) -> bool)
    requires
        asymmetric(lt),
        strictly_sorted(s1, lt),
        strictly_sorted(s2, lt),
        forall|x: T| s1.contains(x) <==> s2.contains(x),
    ensures
        s1 == s2,
    decreases s1.len(),
{
    if s1.len() == 0 {
        if s2.len() > 0 {
            assert(s2.contains(s2[0]));
        }
        assert(s1 =~= s2);
    } else {
        assert(s1.contains(s1[0]));
        assert(s2.len() > 0);
        assert(s2.contains(s2[0]));
        let j = choose|j: int| 0 <= j < s2.len() && s2[j] == s1[0];
        let i = choose|i: int| 0 <= i < s1.len() && s1[i] == s2[0];
        if s1[0] != s2[0] {
            assert(lt(s2[0], s2[j]));
            assert(lt(s1[0], s1[i]));
        }
        let t1 = s1.drop_first();
        let t2 = s2.drop_first();
        assert forall|x: T| t1.contains(x) implies t2.contains(x) by {
            let k = choose|k: int| 0 <= k < t1.len() && t1[k] == x;
            assert(lt(s1[0], s1[k + 1]));
            assert(s2.contains(x));
            let m = choose|m: int| 0 <= m < s2.len() && s2[m] == x;
            assert(m != 0);
            assert(t2[m - 1] == x);
        }
        assert forall|x: T| t2.contains(x) implies t1.contains(x) by {
            let k = choose|k: int| 0 <= k < t2.len() && t2[k] == x;
            assert(lt(s2[0], s2[k + 1]));
            assert(s1.contains(x));
            let m = choose|m: int| 0 <= m < s1.len() && s1[m] == x;
            assert(m != 0);
            assert(t1[m - 1] == x);
        }
        lemma_sorted_unique(t1, t2, lt);
        assert(s1 =~= seq![s1[0]] + t1);
        assert(s2 =~= seq![s2[0]] + t2);
    }
}

pub proof fn lemma_sorted_texts_is(q: Seq<Seq<char>>, e: Set<Seq<char>>)
    requires
        strictly_sorted(q, text_order()),
        holds_exactly(q, e),
    ensures
        sorted_texts(e) == q,
{
    let c = sorted_texts(e);
    assert(strictly_sorted(c, text_order()) && holds_exactly(c, e));
    lemma_text_order_asymmetric();
    lemma_sorted_unique(c, q, text_order());
}

pub proof fn lemma_sorted_ids_is(q: Seq<u32>, e: Set<u32>)
    requires
        strictly_sorted(q, id_order()),
        holds_exactly(q, e),
    ensures
        sorted_ids(e) == q,
{
    let c = sorted_ids(e);
    assert(strictly_sorted(c, id_order()) && holds_exactly(c, e));
    lemma_sorted_unique(c, q, id_order());
}

/// Whether `a` comes before `b` in lexicographic order.
pub fn text_less(a: &Vec<char>, b: &Vec<char>) -> (r: bool)
    ensures
        r == text_lt(a@, b@),
{
    let mut k: usize = 0;
    assert(a@.subrange(0, a@.len() as int) =~= a@);
    assert(b@.subrange(0, b@.len() as int) =~= b@);
    while k < a.len() && k < b.len() && a[k] == b[k]
        invariant
            k <= a@.len(),
            k <= b@.len(),
            text_lt(a@, b@) == text_lt(a@.subrange(k as int, a@.len() as int), b@.subrange(
                k as int,
                b@.len() as int,
            )),
        decreases a@.len() - k,
    {
        assert(a@.subrange(k as int, a@.len() as int).drop_first() =~= a@.subrange(
            k + 1,
            a@.len() as int,
        ));
        assert(b@.subrange(k as int, b@.len() as int).drop_first() =~= b@.subrange(
            k + 1,
            b@.len() as int,
        ));
        k = k + 1;
    }
    if k < a.len() && k < b.len() {
        a[k] < b[k]
    } else {
        k == a.len() && k < b.len()
    }
}

pub proof fn lemma_insert_contains<T>(s: Seq<T>, p: int, x: T)
    requires
        0 <= p <= s.len(),
    ensures
        forall|y: T| #[trigger] s.insert(p, x).contains(y) <==> (s.contains(y) || y == x),
{
    let n = s.insert(p, x);
    assert forall|y: T| n.contains(y) implies (s.contains(y) || y == x) by {
        let k = choose|k: int| 0 <= k < n.len() && n[k] == y;
        if k < p {
            assert(s[k] == y);
        } else if k > p {
            assert(s[k - 1] == y);
        }
    }
    assert forall|y: T| (s.contains(y) || y == x) implies n.contains(y) by {
        if y == x {
            assert(n[p] == y);
        } else {
            let k = choose|k: int| 0 <= k < s.len() && s[k] == y;
            if k < p {
                assert(n[k] == y);
            } else {
                assert(n[k + 1] == y);
            }
        }
    }
}

/// Adds `x` to a strictly sorted vector of texts, unless it is there already.
pub(crate) fn insert_text(v: &mut Vec<Vec<char>>, x: Vec<char>)
    requires
        strictly_sorted(texts_view(old(v)@), text_order()),
    ensures
        strictly_sorted(texts_view(final(v)@), text_order()),
        forall|y: Seq<char>|
            texts_view(final(v)@).contains(y) <==> (texts_view(old(v)@).contains(y) || y == x@),
{
    let ghost s = texts_view(v@);
    let mut p: usize = 0;
    while p < v.len() && text_less(&v[p], &x)
        invariant
            p <= v@.len(),
            s == texts_view(v@),
            forall|k: int| 0 <= k < p ==> text_lt(#[trigger] s[k], x@),
        decreases v@.len() - p,
    {
        p = p + 1;
    }
    if p < v.len() && !text_less(&x, &v[p]) {
        proof {
            lemma_text_lt_total(s[p as int], x@);
        }
        assert(s[p as int] == x@);
        assert(s.contains(x@));
        assert(texts_view(v@) == s);
        assert(forall|y: Seq<char>| s.contains(y) <==> (s.contains(y) || y == x@));
        return;
    }
    proof {
        if p < s.len() {
            lemma_text_lt_total(s[p as int], x@);
            assert forall|k: int| p < k < s.len() implies text_lt(x@, #[trigger] s[k]) by {
                lemma_text_lt_transitive(x@, s[p as int], s[k]);
            }
        }
        assert forall|k: int| 0 <= k < p implies !(x@ == #[trigger] s[k]) by {
            lemma_text_lt_asymmetric(s[k], x@);
        }
        lemma_insert_contains(s, p as int, x@);
    }
    v.insert(p, x);
    assert(texts_view(v@) =~= s.insert(p as int, x@));
}

/// Adds `x` to a strictly increasing vector of numbers, unless it is there already.
pub(crate) fn insert_id(v: &mut Vec<u32>, x: u32)
    requires
        strictly_sorted(old(v)@, id_order()),
    ensures
        strictly_sorted(final(v)@, id_order()),
        forall|y: u32| final(v)@.contains(y) <==> (old(v)@.contains(y) || y == x),
{
    let ghost s = v@;
    let mut p: usize = 0;
    while p < v.len() && v[p] < x
        invariant
            p <= v@.len(),
            s == v@,
            forall|k: int| 0 <= k < p ==> #[trigger] s[k] < x,
        decreases v@.len() - p,
    {
        p = p + 1;
    }
    if p < v.len() && v[p] == x {
        assert(s.contains(x));
        assert(forall|y: u32| s.contains(y) <==> (s.contains(y) || y == x));
        return;
    }
    proof {
        lemma_insert_contains(s, p as int, x);
    }
    v.insert(p, x);
}

/// `lt` is a strict total order.
pub open spec fn strict_total<T>(lt: spec_fn(T, T) -> bool) -> bool {
    &&& forall|a: T, b: T| #[trigger] lt(a, b) ==> !lt(b, a)
    &&& forall|a: T, b: T, c: T| #[trigger] lt(a, b) && #[trigger] lt(b, c) ==> lt(a, c)
    &&& forall|a: T, b: T| #![trigger lt(a, b)] a != b ==> lt(a, b) || lt(b, a)
}

/// `q` with `x` put in its place, unless it is there already.
pub open spec fn sorted_insert<T>(q: Seq<T>, x: T, lt: spec_fn(T, T) -> bool) -> Seq<T>
    decreases q.len(),
{
    if q.len() == 0 {
        seq![x]
    } else if q[0] == x {
        q
    } else if lt(x, q[0]) {
        seq![x] + q
    } else {
        seq![q[0]] + sorted_insert(q.drop_first(), x, lt)
    }
}

pub proof fn lemma_text_order_total()
    ensures
        strict_total(text_order()),
{
    assert forall|a: Seq<char>, b: Seq<char>| #[trigger] text_order()(a, b) implies !text_order()(
        b,
        a,
    ) by {
        lemma_text_lt_asymmetric(a, b);
    }
    assert forall|a: Seq<char>, b: Seq<char>, c: Seq<char>|
        #[trigger] text_order()(a, b) && #[trigger] text_order()(b, c) implies text_order()(
        a,
        c,
    ) by {
        lemma_text_lt_transitive(a, b, c);
    }
    assert forall|a: Seq<char>, b: Seq<char>| a != b implies #[trigger] text_order()(a, b)
        || text_order()(b, a) by {
        lemma_text_lt_total(a, b);
    }
}

pub proof fn lemma_sorted_insert<T>(q: Seq<T>, x: T, lt: spec_fn(T, T) -> bool)
    requires
        strict_total(lt),
        strictly_sorted(q, lt),
    ensures
        strictly_sorted(sorted_insert(q, x, lt), lt),
        forall|y: T| #[trigger] sorted_insert(q, x, lt).contains(y) <==> (q.contains(y) || y == x),
    decreases q.len(),
{
    let r = sorted_insert(q, x, lt);
    if q.len() == 0 {
        assert(r[0] == x);
        assert forall|y: T| r.contains(y) <==> (q.contains(y) || y == x) by {
            if r.contains(y) {
                let k = choose|k: int| 0 <= k < r.len() && r[k] == y;
                assert(k == 0);
            }
        }
    } else if q[0] == x {
        assert(q.contains(q[0]));
    } else if lt(x, q[0]) {
        assert forall|i: int, j: int| 0 <= i < j < r.len() implies lt(r[i], r[j]) by {
            if i == 0 {
                if j > 1 {
                    assert(lt(q[0], q[j - 1]));
                }
            } else {
                assert(lt(q[i - 1], q[j - 1]));
            }
        }
        lemma_insert_contains(q, 0, x);
        assert(r =~= q.insert(0, x));
    } else {
        assert(lt(q[0], x));
        let t = q.drop_first();
        assert(strictly_sorted(t, lt)) by {
            assert forall|i: int, j: int| 0 <= i < j < t.len() implies lt(t[i], t[j]) by {
                assert(lt(q[i + 1], q[j + 1]));
            }
        }
        lemma_sorted_insert(t, x, lt);
        let rt = sorted_insert(t, x, lt);
        assert(r == seq![q[0]] + rt);
        assert forall|k: int| 0 <= k < rt.len() implies lt(q[0], #[trigger] rt[k]) by {
            assert(rt.contains(rt[k]));
            if rt[k] != x {
                let m = choose|m: int| 0 <= m < t.len() && t[m] == rt[k];
                assert(lt(q[0], q[m + 1]));
            }
        }
        assert forall|i: int, j: int| 0 <= i < j < r.len() implies lt(r[i], r[j]) by {
            if i == 0 {
                assert(lt(q[0], rt[j - 1]));
            } else {
                assert(lt(rt[i - 1], rt[j - 1]));
            }
        }
        assert forall|y: T| r.contains(y) <==> (q.contains(y) || y == x) by {
            if r.contains(y) {
                let k = choose|k: int| 0 <= k < r.len() && r[k] == y;
                if k == 0 {
                    assert(q[0] == y);
                } else {
                    assert(rt.contains(y));
                    if t.contains(y) {
                        let m = choose|m: int| 0 <= m < t.len() && t[m] == y;
                        assert(q[m + 1] == y);
                    }
                }
            }
            if q.contains(y) {
                let k = choose|k: int| 0 <= k < q.len() && q[k] == y;
                if k == 0 {
                    assert(r[0] == y);
                } else {
                    assert(t[k - 1] == y);
                    assert(rt.contains(y));
                    let m = choose|m: int| 0 <= m < rt.len() && rt[m] == y;
                    assert(r[m + 1] == y);
                }
            }
            if y == x {
                assert(rt.contains(y));
                let m = choose|m: int| 0 <= m < rt.len() && rt[m] == y;
                assert(r[m + 1] == y);
            }
        }
    }
}

/// The numbers of `xs` put into the strictly increasing `q`.
pub proof fn lemma_insert_ids(q: Seq<u32>, xs: Seq<u32>) -> (r: Seq<u32>)
    requires
        strictly_sorted(q, id_order()),
    ensures
        strictly_sorted(r, id_order()),
        forall|y: u32| #[trigger] r.contains(y) <==> (q.contains(y) || xs.contains(y)),
    decreases xs.len(),
{
    if xs.len() == 0 {
        q
    } else {
        let q1 = lemma_insert_ids(q, xs.drop_last());
        assert(strict_total(id_order()));
        lemma_sorted_insert(q1, xs.last(), id_order());
        let r = sorted_insert(q1, xs.last(), id_order());
        assert forall|y: u32| #[trigger] r.contains(y) <==> (q.contains(y) || xs.contains(y)) by {
            if xs.contains(y) && !xs.drop_last().contains(y) {
                let k = choose|k: int| 0 <= k < xs.len() && xs[k] == y;
                if k < xs.len() - 1 {
                    assert(xs.drop_last()[k] == y);
                }
            }
            if xs.drop_last().contains(y) {
                let k = choose|k: int| 0 <= k < xs.drop_last().len() && xs.drop_last()[k] == y;
                assert(xs[k] == y);
            }
            if y == xs.last() {
                assert(xs[xs.len() - 1] == y);
            }
        }
        r
    }
}

} // verus!
