//! Stable sorting by lexicographic integer keys, in either direction:
//! items with equal keys keep their order, as `slice::sort_by` keeps them.
use vstd::prelude::*;

verus! {

/// Lexicographic comparison: -1, 0 or 1. A proper prefix comes first.
pub open spec fn lex_order(a: Seq<i64>, b: Seq<i64>) -> int
    decreases a.len(),
{
    if a.len() == 0 && b.len() == 0 {
        0
    } else if a.len() == 0 {
        -1
    } else if b.len() == 0 {
        1
    } else if a[0] < b[0] {
        -1
    } else if a[0] > b[0] {
        1
    } else {
        lex_order(a.drop_first(), b.drop_first())
    }
}

/// Whether an item keyed `e` belongs after one keyed `k`.
pub open spec fn goes_after(e: Seq<i64>, k: Seq<i64>, descending: bool) -> bool {
    if descending {
        lex_order(e, k) < 0
    } else {
        lex_order(e, k) > 0
    }
}

/// `x` inserted before the first item that belongs after it.
pub open spec fn sorted_insert<T>(s: Seq<(Seq<i64>, T)>, x: (Seq<i64>, T), descending: bool) -> Seq<(Seq<i64>, T)>
    decreases s.len(),
{
    if s.len() == 0 {
        seq![x]
    } else if goes_after(s[0].0, x.0, descending) {
        seq![x] + s
    } else {
        seq![s[0]] + sorted_insert(s.drop_first(), x, descending)
    }
}

/// The stable sort of `s`: each item in turn inserted after every earlier
/// item that does not belong after it.
pub open spec fn stable_sort<T>(s: Seq<(Seq<i64>, T)>, descending: bool) -> Seq<(Seq<i64>, T)>
    decreases s.len(),
{
    if s.len() == 0 {
        Seq::empty()
    } else {
        sorted_insert(stable_sort(s.drop_last(), descending), s.last(), descending)
    }
}

/// The plain content of keyed items.
pub open spec fn keyed_view<T>(v: Seq<(Vec<i64>, T)>) -> Seq<(Seq<i64>, T)> {
    v.map_values(|p: (Vec<i64>, T)| (p.0@, p.1))
}

/// Lexicographic comparison of two keys.
pub fn compare_keys(a: &Vec<i64>, b: &Vec<i64>) -> (r: i8)
    ensures
        r as int == lex_order(a@, b@),
{
    let mut i: usize = 0;
    proof {
        assert(a@.skip(0) =~= a@);
        assert(b@.skip(0) =~= b@);
    }
    while i < a.len() && i < b.len()
        invariant
            i <= a.len(),
            i <= b.len(),
            lex_order(a@, b@) == lex_order(a@.skip(i as int), b@.skip(i as int)),
        decreases a.len() - i,
    {
        proof {
            assert(a@.skip(i as int)[0] == a@[i as int]);
            assert(b@.skip(i as int)[0] == b@[i as int]);
            assert(a@.skip(i as int).drop_first() =~= a@.skip(i + 1));
            assert(b@.skip(i as int).drop_first() =~= b@.skip(i + 1));
        }
        if a[i] < b[i] {
            return -1;
        }
        if a[i] > b[i] {
            return 1;
        }
        i = i + 1;
    }
    if a.len() == i && b.len() == i {
        0
    } else if a.len() == i {
        -1
    } else {
        1
    }
}

proof fn lemma_insert_at<T>(s: Seq<(Seq<i64>, T)>, x: (Seq<i64>, T), descending: bool, p: int)
    requires
        0 <= p <= s.len(),
        forall|k: int| 0 <= k < p ==> !goes_after(#[trigger] s[k].0, x.0, descending),
        p < s.len() ==> goes_after(s[p].0, x.0, descending),
    ensures
        sorted_insert(s, x, descending) == s.take(p) + seq![x] + s.skip(p),
    decreases s.len(),
{
    if s.len() == 0 {
        assert(s.take(p) + seq![x] + s.skip(p) =~= seq![x]);
    } else if p == 0 {
        assert(s.take(0) + seq![x] + s.skip(0) =~= seq![x] + s);
    } else {
        let t = s.drop_first();
        assert forall|k: int| 0 <= k < p - 1 implies !goes_after(#[trigger] t[k].0, x.0, descending) by {
            assert(t[k] == s[k + 1]);
        }
        lemma_insert_at(t, x, descending, p - 1);
        assert(seq![s[0]] + (t.take(p - 1) + seq![x] + t.skip(p - 1)) =~= s.take(p) + seq![x] + s.skip(p));
    }
}

/// Stably sorts keyed items, ascending or descending by key.
pub fn sort_by_keys<T>(items: Vec<(Vec<i64>, T)>, descending: bool) -> (r: Vec<(Vec<i64>, T)>)
    ensures
        keyed_view(r@) == stable_sort(keyed_view(items@), descending),
{
    let mut items = items;
    // Take the items from the back so each can be moved out, then insert
    // them in their original order.
    let mut reversed: Vec<(Vec<i64>, T)> = Vec::new();
    let ghost orig = keyed_view(items@);
    while items.len() > 0
        invariant
            keyed_view(items@) + keyed_view(reversed@).reverse() == orig,
        decreases items.len(),
    {
        let ghost before_items = items@;
        let ghost before_rev = reversed@;
        let last = items.pop().unwrap();
        reversed.push(last);
        proof {
            assert(keyed_view(before_items) =~= keyed_view(items@).push((last.0@, last.1)));
            assert(keyed_view(reversed@).reverse() =~= seq![(last.0@, last.1)] + keyed_view(before_rev).reverse());
            assert(keyed_view(items@) + keyed_view(reversed@).reverse() =~= keyed_view(before_items) + keyed_view(before_rev).reverse());
        }
    }
    proof {
        assert(keyed_view(items@) =~= Seq::<(Seq<i64>, T)>::empty());
        assert(keyed_view(reversed@).reverse() =~= orig);
    }
    let mut out: Vec<(Vec<i64>, T)> = Vec::new();
    let ghost mut done: int = 0;
    while reversed.len() > 0
        invariant
            0 <= done <= orig.len(),
            keyed_view(reversed@).reverse() == orig.skip(done),
            keyed_view(out@) == stable_sort(orig.take(done), descending),
        decreases reversed.len(),
    {
        let ghost before_rev = reversed@;
        let x = reversed.pop().unwrap();
        proof {
            assert(keyed_view(before_rev).reverse() =~= seq![(x.0@, x.1)] + keyed_view(reversed@).reverse());
            assert(orig.skip(done)[0] == (x.0@, x.1));
            assert(orig.skip(done).drop_first() =~= orig.skip(done + 1));
            assert(keyed_view(reversed@).reverse() =~= orig.skip(done + 1));
            assert(orig.take(done + 1).drop_last() =~= orig.take(done));
            assert(orig.take(done + 1).last() == (x.0@, x.1));
        }
        let mut p: usize = 0;
        while p < out.len()
            invariant
                p <= out.len(),
                forall|k: int| 0 <= k < p ==> !goes_after(#[trigger] keyed_view(out@)[k].0, x.0@, descending),
            ensures
                p <= out.len(),
                forall|k: int| 0 <= k < p ==> !goes_after(#[trigger] keyed_view(out@)[k].0, x.0@, descending),
                p < out.len() ==> goes_after(keyed_view(out@)[p as int].0, x.0@, descending),
            decreases out.len() - p,
        {
            let c = compare_keys(&out[p].0, &x.0);
            proof {
                assert(keyed_view(out@)[p as int].0 == out@[p as int].0@);
            }
            if (descending && c < 0) || (!descending && c > 0) {
                break;
            }
            p = p + 1;
        }
        proof {
            if p < out.len() {
                assert(keyed_view(out@)[p as int].0 == out@[p as int].0@);
            }
        }
        let ghost xv = (x.0@, x.1);
        let ghost before_out = keyed_view(out@);
        proof {
            lemma_insert_at(before_out, xv, descending, p as int);
        }
        out.insert(p, x);
        proof {
            assert(keyed_view(out@) =~= before_out.take(p as int) + seq![xv] + before_out.skip(p as int));
            done = done + 1;
        }
    }
    proof {
        assert(orig.skip(done).len() == 0);
        assert(orig.take(done) =~= orig);
    }
    out
}

/// The items with their payloads changed by `f`, keys kept.
pub open spec fn map_payload<T, U>(s: Seq<(Seq<i64>, T)>, f: spec_fn(T) -> U) -> Seq<(Seq<i64>, U)> {
    s.map_values(|p: (Seq<i64>, T)| (p.0, f(p.1)))
}

proof fn lemma_insert_map_payload<T, U>(s: Seq<(Seq<i64>, T)>, x: (Seq<i64>, T), f: spec_fn(T) -> U, descending: bool)
    ensures
        map_payload(sorted_insert(s, x, descending), f) == sorted_insert(map_payload(s, f), (x.0, f(x.1)), descending),
    decreases s.len(),
{
    let ms = map_payload(s, f);
    if s.len() == 0 {
        assert(map_payload(seq![x], f) =~= seq![(x.0, f(x.1))]);
    } else if goes_after(s[0].0, x.0, descending) {
        assert(ms[0].0 == s[0].0);
        assert(map_payload(seq![x] + s, f) =~= seq![(x.0, f(x.1))] + ms);
    } else {
        assert(ms[0].0 == s[0].0);
        lemma_insert_map_payload(s.drop_first(), x, f, descending);
        assert(map_payload(s.drop_first(), f) =~= ms.drop_first());
        assert(map_payload(seq![s[0]] + sorted_insert(s.drop_first(), x, descending), f) =~= seq![ms[0]]
            + map_payload(sorted_insert(s.drop_first(), x, descending), f));
    }
}

/// Sorting does not look at payloads: changing them before or after the
/// sort gives the same items.
pub proof fn lemma_sort_map_payload<T, U>(s: Seq<(Seq<i64>, T)>, f: spec_fn(T) -> U, descending: bool)
    ensures
        map_payload(stable_sort(s, descending), f) == stable_sort(map_payload(s, f), descending),
    decreases s.len(),
{
    let ms = map_payload(s, f);
    if s.len() == 0 {
        assert(map_payload(Seq::<(Seq<i64>, T)>::empty(), f) =~= Seq::<(Seq<i64>, U)>::empty());
    } else {
        lemma_sort_map_payload(s.drop_last(), f, descending);
        assert(map_payload(s.drop_last(), f) =~= ms.drop_last());
        lemma_insert_map_payload(stable_sort(s.drop_last(), descending), s.last(), f, descending);
    }
}

proof fn lemma_insert_elements<T>(s: Seq<(Seq<i64>, T)>, x: (Seq<i64>, T), descending: bool)
    ensures
        sorted_insert(s, x, descending).len() == s.len() + 1,
        forall|t: int| 0 <= t < s.len() + 1 ==> (#[trigger] sorted_insert(s, x, descending)[t] == x
            || s.contains(sorted_insert(s, x, descending)[t])),
    decreases s.len(),
{
    let r = sorted_insert(s, x, descending);
    if s.len() == 0 {
    } else if goes_after(s[0].0, x.0, descending) {
        assert forall|t: int| 0 <= t < s.len() + 1 implies (#[trigger] r[t] == x || s.contains(r[t])) by {
            if t > 0 {
                assert(r[t] == s[t - 1]);
            }
        }
    } else {
        let rest = s.drop_first();
        lemma_insert_elements(rest, x, descending);
        assert forall|t: int| 0 <= t < s.len() + 1 implies (#[trigger] r[t] == x || s.contains(r[t])) by {
            if t == 0 {
                assert(r[0] == s[0]);
            } else {
                let u = sorted_insert(rest, x, descending)[t - 1];
                assert(r[t] == u);
                if u != x {
                    let j = choose|j: int| 0 <= j < rest.len() && rest[j] == u;
                    assert(s[j + 1] == u);
                }
            }
        }
    }
}

/// Sorting keeps the number of items and brings in no new ones.
pub proof fn lemma_sort_elements<T>(s: Seq<(Seq<i64>, T)>, descending: bool)
    ensures
        stable_sort(s, descending).len() == s.len(),
        forall|t: int| 0 <= t < s.len() ==> s.contains(#[trigger] stable_sort(s, descending)[t]),
    decreases s.len(),
{
    if s.len() > 0 {
        let prev = stable_sort(s.drop_last(), descending);
        lemma_sort_elements(s.drop_last(), descending);
        lemma_insert_elements(prev, s.last(), descending);
        assert forall|t: int| 0 <= t < s.len() implies s.contains(#[trigger] stable_sort(s, descending)[t]) by {
            let u = stable_sort(s, descending)[t];
            if u == s.last() {
                assert(s[s.len() - 1] == u);
            } else {
                assert(prev.contains(u));
                let j = choose|j: int| 0 <= j < prev.len() && prev[j] == u;
                assert(s.drop_last().contains(prev[j]));
                let i = choose|i: int| 0 <= i < s.drop_last().len() && s.drop_last()[i] == u;
                assert(s[i] == u);
            }
        }
    }
}

/// Whether an item keyed `a` may stand before one keyed `b`.
pub open spec fn may_precede(a: Seq<i64>, b: Seq<i64>, descending: bool) -> bool {
    !goes_after(a, b, descending)
}

/// No item of `s` belongs after an item that follows it.
pub open spec fn in_order<T>(s: Seq<(Seq<i64>, T)>, descending: bool) -> bool {
    forall|i: int, j: int| 0 <= i < j < s.len() ==> may_precede(#[trigger] s[i].0, #[trigger] s[j].0, descending)
}

proof fn lemma_lex_antisymmetric(a: Seq<i64>, b: Seq<i64>)
    ensures
        lex_order(a, b) == -lex_order(b, a),
    decreases a.len(),
{
    if a.len() > 0 && b.len() > 0 && a[0] == b[0] {
        lemma_lex_antisymmetric(a.drop_first(), b.drop_first());
    }
}

proof fn lemma_lex_transitive(a: Seq<i64>, b: Seq<i64>, c: Seq<i64>)
    requires
        lex_order(a, b) <= 0,
        lex_order(b, c) <= 0,
    ensures
        lex_order(a, c) <= 0,
    decreases a.len(),
{
    if a.len() > 0 && b.len() > 0 && c.len() > 0 && a[0] == b[0] && b[0] == c[0] {
        lemma_lex_transitive(a.drop_first(), b.drop_first(), c.drop_first());
    }
}

proof fn lemma_precede_transitive(a: Seq<i64>, b: Seq<i64>, c: Seq<i64>, descending: bool)
    requires
        may_precede(a, b, descending),
        may_precede(b, c, descending),
    ensures
        may_precede(a, c, descending),
{
    if descending {
        lemma_lex_antisymmetric(a, b);
        lemma_lex_antisymmetric(b, c);
        lemma_lex_antisymmetric(a, c);
        lemma_lex_transitive(c, b, a);
    } else {
        lemma_lex_transitive(a, b, c);
    }
}

proof fn lemma_after_precedes(a: Seq<i64>, b: Seq<i64>, descending: bool)
    requires
        goes_after(a, b, descending),
    ensures
        may_precede(b, a, descending),
{
    lemma_lex_antisymmetric(a, b);
}

proof fn lemma_insert_in_order<T>(s: Seq<(Seq<i64>, T)>, x: (Seq<i64>, T), descending: bool)
    requires
        in_order(s, descending),
    ensures
        in_order(sorted_insert(s, x, descending), descending),
    decreases s.len(),
{
    let r = sorted_insert(s, x, descending);
    if s.len() == 0 {
    } else if goes_after(s[0].0, x.0, descending) {
        lemma_after_precedes(s[0].0, x.0, descending);
        assert forall|i: int, j: int| 0 <= i < j < r.len() implies may_precede(#[trigger] r[i].0, #[trigger] r[j].0, descending) by {
            if i == 0 {
                if j > 1 {
                    assert(may_precede(s[0].0, s[j - 1].0, descending));
                    lemma_precede_transitive(x.0, s[0].0, s[j - 1].0, descending);
                }
            } else {
                assert(r[i] == s[i - 1] && r[j] == s[j - 1]);
            }
        }
    } else {
        let rest = s.drop_first();
        assert(in_order(rest, descending)) by {
            assert forall|i: int, j: int| 0 <= i < j < rest.len() implies may_precede(#[trigger] rest[i].0, #[trigger] rest[j].0, descending) by {
                assert(rest[i] == s[i + 1] && rest[j] == s[j + 1]);
            }
        }
        lemma_insert_in_order(rest, x, descending);
        lemma_insert_elements(rest, x, descending);
        let tail = sorted_insert(rest, x, descending);
        assert forall|i: int, j: int| 0 <= i < j < r.len() implies may_precede(#[trigger] r[i].0, #[trigger] r[j].0, descending) by {
            if i == 0 {
                let u = tail[j - 1];
                assert(r[j] == u);
                if u != x {
                    let k = choose|k: int| 0 <= k < rest.len() && rest[k] == u;
                    assert(s[k + 1] == u);
                }
            } else {
                assert(r[i] == tail[i - 1] && r[j] == tail[j - 1]);
            }
        }
    }
}

/// A stable sort leaves its items in order: no item belongs after one that
/// follows it.
pub proof fn law_sort_in_order<T>(s: Seq<(Seq<i64>, T)>, descending: bool)
    ensures
        in_order(stable_sort(s, descending), descending),
    decreases s.len(),
{
    if s.len() > 0 {
        law_sort_in_order(s.drop_last(), descending);
        lemma_insert_in_order(stable_sort(s.drop_last(), descending), s.last(), descending);
    }
}

/// Keys paired with their positions.
pub open spec fn indexed(keys: Seq<Seq<i64>>) -> Seq<(Seq<i64>, int)> {
    Seq::new(keys.len(), |i: int| (keys[i], i))
}

/// Items with equal keys stand in the order of their tags.
pub open spec fn ties_in_order(s: Seq<(Seq<i64>, int)>) -> bool {
    forall|p: int, q: int| 0 <= p < q < s.len() && lex_order(#[trigger] s[p].0, #[trigger] s[q].0) == 0 ==> s[p].1 < s[q].1
}

proof fn lemma_lex_zero_equal(a: Seq<i64>, b: Seq<i64>)
    requires
        lex_order(a, b) == 0,
    ensures
        a == b,
    decreases a.len(),
{
    if a.len() > 0 && b.len() > 0 && a[0] == b[0] {
        lemma_lex_zero_equal(a.drop_first(), b.drop_first());
        assert(a =~= seq![a[0]] + a.drop_first());
        assert(b =~= seq![b[0]] + b.drop_first());
    }
}

proof fn lemma_insert_ties(s: Seq<(Seq<i64>, int)>, x: (Seq<i64>, int), descending: bool)
    requires
        in_order(s, descending),
        ties_in_order(s),
        forall|i: int| 0 <= i < s.len() ==> (#[trigger] s[i]).1 < x.1,
    ensures
        ties_in_order(sorted_insert(s, x, descending)),
    decreases s.len(),
{
    let r = sorted_insert(s, x, descending);
    if s.len() == 0 {
    } else if goes_after(s[0].0, x.0, descending) {
        assert forall|p: int, q: int| 0 <= p < q < r.len() && lex_order(#[trigger] r[p].0, #[trigger] r[q].0) == 0 implies r[p].1 < r[q].1 by {
            if p == 0 {
                let u = s[q - 1];
                assert(r[q] == u);
                lemma_lex_zero_equal(x.0, u.0);
                if q - 1 > 0 {
                    assert(may_precede(s[0].0, s[q - 1].0, descending));
                }
                assert(false);
            } else {
                assert(r[p] == s[p - 1] && r[q] == s[q - 1]);
            }
        }
    } else {
        let rest = s.drop_first();
        assert(in_order(rest, descending)) by {
            assert forall|i: int, j: int| 0 <= i < j < rest.len() implies may_precede(#[trigger] rest[i].0, #[trigger] rest[j].0, descending) by {
                assert(rest[i] == s[i + 1] && rest[j] == s[j + 1]);
            }
        }
        assert(ties_in_order(rest)) by {
            assert forall|p: int, q: int| 0 <= p < q < rest.len() && lex_order(#[trigger] rest[p].0, #[trigger] rest[q].0) == 0 implies rest[p].1 < rest[q].1 by {
                assert(rest[p] == s[p + 1] && rest[q] == s[q + 1]);
            }
        }
        assert forall|i: int| 0 <= i < rest.len() implies (#[trigger] rest[i]).1 < x.1 by {
            assert(rest[i] == s[i + 1]);
        }
        lemma_insert_ties(rest, x, descending);
        lemma_insert_elements(rest, x, descending);
        let tail = sorted_insert(rest, x, descending);
        assert forall|p: int, q: int| 0 <= p < q < r.len() && lex_order(#[trigger] r[p].0, #[trigger] r[q].0) == 0 implies r[p].1 < r[q].1 by {
            if p == 0 {
                let u = tail[q - 1];
                assert(r[q] == u);
                if u != x {
                    let k = choose|k: int| 0 <= k < rest.len() && rest[k] == u;
                    assert(s[k + 1] == u);
                    assert(lex_order(s[0].0, s[k + 1].0) == 0);
                }
            } else {
                assert(r[p] == tail[p - 1] && r[q] == tail[q - 1]);
            }
        }
    }
}

/// Sorting is stable: items with equal keys keep the order they came in.
pub proof fn law_sort_stable(keys: Seq<Seq<i64>>, descending: bool)
    ensures
        ties_in_order(stable_sort(indexed(keys), descending)),
    decreases keys.len(),
{
    if keys.len() > 0 {
        let s = indexed(keys);
        let n = keys.len() as int;
        let front = keys.drop_last();
        assert(s.drop_last() =~= indexed(front));
        law_sort_stable(front, descending);
        law_sort_in_order(indexed(front), descending);
        lemma_sort_elements(indexed(front), descending);
        let prev = stable_sort(indexed(front), descending);
        assert forall|i: int| 0 <= i < prev.len() implies (#[trigger] prev[i]).1 < s.last().1 by {
            assert(indexed(front).contains(prev[i]));
            let j = choose|j: int| 0 <= j < indexed(front).len() && indexed(front)[j] == prev[i];
            assert(prev[i].1 == j);
        }
        lemma_insert_ties(prev, s.last(), descending);
    }
}

} // verus!
