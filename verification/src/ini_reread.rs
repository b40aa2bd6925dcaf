//! Reading back a written configuration: the `DEFAULT` and `render`
//! sections that `serialize` writes are what `parse` reads, wherever their
//! keys and values are plain one-line texts.
use vstd::prelude::*;
use crate::chars::{spec_trim, spec_trim_start, spec_trim_end, spec_is_whitespace, spec_lines, spec_strip_cr, lemma_find_unique, spec_split_once};
use crate::ini::{Entries, Sections, entry_names, section_names, ini_wf, lookup_entry, section_entries, lookup, spec_set, law_get_after_set, lemma_index_of_unique, parse_line, parse_lines, spec_parse, render_entry, render_ordered, render_rest, render_section, spec_serialize, default_order, render_order};

verus! {

/// The entries as a sequence of `spec_set` calls on section `sec`.
pub open spec fn apply_entries(s: Sections, sec: Seq<char>, r: Entries) -> Sections
    decreases r.len(),
{
    if r.len() == 0 {
        s
    } else {
        spec_set(apply_entries(s, sec, r.drop_last()), sec, r.last().0, r.last().1)
    }
}

proof fn lemma_names_push(a: Entries, x: (Seq<char>, Seq<char>))
    ensures
        entry_names(a.push(x)) == entry_names(a).push(x.0),
{
    assert(entry_names(a.push(x)) =~= entry_names(a).push(x.0));
}

proof fn lemma_lookup_push(a: Entries, x: (Seq<char>, Seq<char>), k: Seq<char>)
    requires
        entry_names(a.push(x)).no_duplicates(),
    ensures
        entry_names(a).no_duplicates(),
        !entry_names(a).contains(x.0),
        lookup_entry(a.push(x), k) == if k == x.0 {
            Some(x.1)
        } else {
            lookup_entry(a, k)
        },
{
    let b = a.push(x);
    let nb = entry_names(b);
    let na = entry_names(a);
    lemma_names_push(a, x);
    assert forall|i: int, j: int| 0 <= i < na.len() && 0 <= j < na.len() && i != j implies na[i] != na[j] by {
        assert(nb[i] == na[i] && nb[j] == na[j]);
    }
    if na.contains(x.0) {
        let i = na.index_of(x.0);
        assert(nb[i] == nb[a.len() as int]);
    }
    lemma_index_of_unique(nb, a.len() as int);
    if k != x.0 {
        if nb.contains(k) {
            let j = nb.index_of(k);
            assert(j != a.len() as int);
            assert(na[j] == k);
            lemma_index_of_unique(na, j);
            lemma_index_of_unique(nb, j);
        }
        if na.contains(k) {
            let j = na.index_of(k);
            assert(nb[j] == k);
        }
    }
}

/// Setting the entries of a list with distinct keys, one after another,
/// leaves each of those keys with its value in the list and every other
/// value as it was.
proof fn lemma_apply_entries(s: Sections, sec: Seq<char>, r: Entries)
    requires
        ini_wf(s),
        entry_names(r).no_duplicates(),
    ensures
        ini_wf(apply_entries(s, sec, r)),
        forall|sec2: Seq<char>, k: Seq<char>| #[trigger] lookup(apply_entries(s, sec, r), sec2, k) == if sec2 == sec
            && entry_names(r).contains(k) {
            lookup_entry(r, k)
        } else {
            lookup(s, sec2, k)
        },
    decreases r.len(),
{
    if r.len() > 0 {
        let a = r.drop_last();
        let x = r.last();
        assert(a.push(x) =~= r);
        lemma_lookup_push(a, x, x.0);
        lemma_apply_entries(s, sec, a);
        let prev = apply_entries(s, sec, a);
        law_get_after_set(prev, sec, x.0, x.1);
        lemma_names_push(a, x);
        assert forall|sec2: Seq<char>, k: Seq<char>| #[trigger] lookup(apply_entries(s, sec, r), sec2, k) == if sec2 == sec
            && entry_names(r).contains(k) {
            lookup_entry(r, k)
        } else {
            lookup(s, sec2, k)
        } by {
            lemma_lookup_push(a, x, k);
            if entry_names(r).contains(k) && k != x.0 {
                let j = entry_names(r).index_of(k);
                assert(j != a.len() as int);
                assert(entry_names(a)[j] == k);
            }
            if entry_names(a).contains(k) {
                let j = entry_names(a).index_of(k);
                assert(entry_names(r)[j] == k);
            }
        }
    }
}

proof fn lemma_push_contains<A>(s: Seq<A>, a: A, k: A)
    ensures
        s.push(a).contains(k) == (s.contains(k) || k == a),
{
    if s.push(a).contains(k) && k != a {
        let j = choose|j: int| 0 <= j < s.len() + 1 && #[trigger] s.push(a)[j] == k;
        assert(j < s.len());
        assert(s[j] == k);
    }
    if s.contains(k) {
        let j = choose|j: int| 0 <= j < s.len() && #[trigger] s[j] == k;
        assert(s.push(a)[j] == k);
    }
    if k == a {
        assert(s.push(a)[s.len() as int] == k);
    }
}

/// The keys of `order` that the section holds, with their values, in the
/// order of `order`; the first `n` keys are taken.
pub open spec fn ordered_entries(e: Entries, order: Seq<Seq<char>>, n: int) -> Entries
    decreases n,
{
    if n <= 0 {
        Seq::empty()
    } else {
        let prev = ordered_entries(e, order, n - 1);
        match lookup_entry(e, order[n - 1]) {
            Some(v) => prev.push((order[n - 1], v)),
            None => prev,
        }
    }
}

/// The entries among the first `n` whose keys `order` does not list.
pub open spec fn rest_entries(e: Entries, order: Seq<Seq<char>>, n: int) -> Entries
    decreases n,
{
    if n <= 0 {
        Seq::empty()
    } else {
        let prev = rest_entries(e, order, n - 1);
        if order.contains(e[n - 1].0) {
            prev
        } else {
            prev.push(e[n - 1])
        }
    }
}

/// The entries in the order they are written.
pub open spec fn written_entries(e: Entries, order: Seq<Seq<char>>) -> Entries {
    ordered_entries(e, order, order.len() as int) + rest_entries(e, order, e.len() as int)
}

proof fn lemma_ordered_entries(e: Entries, order: Seq<Seq<char>>, n: int)
    requires
        0 <= n <= order.len(),
        order.no_duplicates(),
        entry_names(e).no_duplicates(),
    ensures
        entry_names(ordered_entries(e, order, n)).no_duplicates(),
        forall|k: Seq<char>| #[trigger] entry_names(ordered_entries(e, order, n)).contains(k) ==> order.take(n).contains(k),
        forall|k: Seq<char>| #[trigger] lookup_entry(ordered_entries(e, order, n), k) == if order.take(n).contains(k) {
            lookup_entry(e, k)
        } else {
            None
        },
    decreases n,
{
    if n > 0 {
        lemma_ordered_entries(e, order, n - 1);
        let prev = ordered_entries(e, order, n - 1);
        let key = order[n - 1];
        assert(!order.take(n - 1).contains(key)) by {
            if order.take(n - 1).contains(key) {
                let j = choose|j: int| 0 <= j < n - 1 && #[trigger] order.take(n - 1)[j] == key;
                assert(order[j] == order[n - 1]);
            }
        }
        assert(order.take(n) =~= order.take(n - 1).push(key));
        assert forall|k: Seq<char>| #[trigger] order.take(n).contains(k) == (order.take(n - 1).contains(k) || k == key) by {
            lemma_push_contains(order.take(n - 1), key, k);
        }
        match lookup_entry(e, key) {
            Some(v) => {
                let x = (key, v);
                lemma_names_push(prev, x);
                let nb = entry_names(prev.push(x));
                assert(!entry_names(prev).contains(key));
                assert forall|i: int, j: int| 0 <= i < nb.len() && 0 <= j < nb.len() && i != j implies nb[i] != nb[j] by {
                    if i == prev.len() as int {
                        assert(entry_names(prev).contains(nb[j]));
                    } else if j == prev.len() as int {
                        assert(entry_names(prev).contains(nb[i]));
                    }
                }
                assert forall|k: Seq<char>| #[trigger] entry_names(ordered_entries(e, order, n)).contains(k) implies order.take(n).contains(k) by {
                    assert(order.take(n).contains(k) == (order.take(n - 1).contains(k) || k == key));
                    lemma_push_contains(entry_names(prev), key, k);
                }
                assert forall|k: Seq<char>| #[trigger] lookup_entry(ordered_entries(e, order, n), k) == if order.take(n).contains(k) {
                    lookup_entry(e, k)
                } else {
                    None
                } by {
                    lemma_lookup_push(prev, x, k);
                }
            },
            None => {
                assert forall|k: Seq<char>| #[trigger] lookup_entry(ordered_entries(e, order, n), k) == if order.take(n).contains(k) {
                    lookup_entry(e, k)
                } else {
                    None
                } by {
                }
            },
        }
    }
}

proof fn lemma_rest_entries(e: Entries, order: Seq<Seq<char>>, n: int)
    requires
        0 <= n <= e.len(),
        entry_names(e).no_duplicates(),
    ensures
        entry_names(rest_entries(e, order, n)).no_duplicates(),
        forall|k: Seq<char>| #[trigger] entry_names(rest_entries(e, order, n)).contains(k) ==> !order.contains(k)
            && entry_names(e.take(n)).contains(k),
        forall|k: Seq<char>| #[trigger] lookup_entry(rest_entries(e, order, n), k) == if !order.contains(k)
            && entry_names(e.take(n)).contains(k) {
            lookup_entry(e, k)
        } else {
            None
        },
    decreases n,
{
    if n > 0 {
        lemma_rest_entries(e, order, n - 1);
        let prev = rest_entries(e, order, n - 1);
        let x = e[n - 1];
        let ne = entry_names(e);
        assert(entry_names(e.take(n)) =~= entry_names(e.take(n - 1)).push(x.0));
        assert forall|k: Seq<char>| #[trigger] entry_names(e.take(n)).contains(k) == (entry_names(e.take(n - 1)).contains(k) || k == x.0) by {
            lemma_push_contains(entry_names(e.take(n - 1)), x.0, k);
        }
        assert(!entry_names(e.take(n - 1)).contains(x.0)) by {
            if entry_names(e.take(n - 1)).contains(x.0) {
                let j = choose|j: int| 0 <= j < n - 1 && #[trigger] entry_names(e.take(n - 1))[j] == x.0;
                assert(ne[j] == ne[n - 1]);
            }
        }
        lemma_index_of_unique(ne, n - 1);
        assert(lookup_entry(e, x.0) == Some(x.1));
        if !order.contains(x.0) {
            lemma_names_push(prev, x);
            let nb = entry_names(prev.push(x));
            assert(!entry_names(prev).contains(x.0));
            assert forall|i: int, j: int| 0 <= i < nb.len() && 0 <= j < nb.len() && i != j implies nb[i] != nb[j] by {
                if i == prev.len() as int {
                    assert(entry_names(prev).contains(nb[j]));
                } else if j == prev.len() as int {
                    assert(entry_names(prev).contains(nb[i]));
                }
            }
            assert forall|k: Seq<char>| #[trigger] entry_names(rest_entries(e, order, n)).contains(k) implies !order.contains(k)
                && entry_names(e.take(n)).contains(k) by {
                assert(entry_names(e.take(n)).contains(k) == (entry_names(e.take(n - 1)).contains(k) || k == x.0));
                lemma_push_contains(entry_names(prev), x.0, k);
            }
            assert forall|k: Seq<char>| #[trigger] lookup_entry(rest_entries(e, order, n), k) == if !order.contains(k)
                && entry_names(e.take(n)).contains(k) {
                lookup_entry(e, k)
            } else {
                None
            } by {
                lemma_lookup_push(prev, x, k);
                assert(entry_names(e.take(n)).contains(k) == (entry_names(e.take(n - 1)).contains(k) || k == x.0));
            }
        } else {
            assert forall|k: Seq<char>| #[trigger] lookup_entry(rest_entries(e, order, n), k) == if !order.contains(k)
                && entry_names(e.take(n)).contains(k) {
                lookup_entry(e, k)
            } else {
                None
            } by {
                assert(entry_names(e.take(n)).contains(k) == (entry_names(e.take(n - 1)).contains(k) || k == x.0));
            }
            assert forall|k: Seq<char>| #[trigger] entry_names(rest_entries(e, order, n)).contains(k) implies !order.contains(k)
                && entry_names(e.take(n)).contains(k) by {
                assert(entry_names(e.take(n)).contains(k) == (entry_names(e.take(n - 1)).contains(k) || k == x.0));
            }
        }
    } else {
        assert(entry_names(Seq::<(Seq<char>, Seq<char>)>::empty()) =~= Seq::<Seq<char>>::empty());
        assert(entry_names(e.take(0)) =~= Seq::<Seq<char>>::empty());
    }
}

proof fn lemma_lookup_concat(a: Entries, b: Entries, k: Seq<char>)
    requires
        entry_names(a).no_duplicates(),
        entry_names(b).no_duplicates(),
        forall|t: Seq<char>| #[trigger] entry_names(a).contains(t) ==> !entry_names(b).contains(t),
    ensures
        entry_names(a + b).no_duplicates(),
        lookup_entry(a + b, k) == if entry_names(a).contains(k) {
            lookup_entry(a, k)
        } else {
            lookup_entry(b, k)
        },
        entry_names(a + b).contains(k) == (entry_names(a).contains(k) || entry_names(b).contains(k)),
{
    let na = entry_names(a);
    let nb = entry_names(b);
    let n = entry_names(a + b);
    assert(n =~= na + nb);
    assert forall|i: int, j: int| 0 <= i < n.len() && 0 <= j < n.len() && i != j implies n[i] != n[j] by {
        if i < na.len() && j >= na.len() {
            assert(na.contains(n[i]));
            assert(nb[j - na.len()] == n[j]);
        } else if j < na.len() && i >= na.len() {
            assert(na.contains(n[j]));
            assert(nb[i - na.len()] == n[i]);
        } else if i >= na.len() && j >= na.len() {
            assert(nb[i - na.len()] == n[i]);
            assert(nb[j - na.len()] == n[j]);
        }
    }
    if na.contains(k) {
        let i = na.index_of(k);
        assert(n[i] == k);
        lemma_index_of_unique(n, i);
        lemma_index_of_unique(na, i);
    } else if nb.contains(k) {
        let i = nb.index_of(k);
        assert(n[na.len() + i] == k);
        lemma_index_of_unique(n, na.len() + i);
        lemma_index_of_unique(nb, i);
    } else {
        if n.contains(k) {
            let i = n.index_of(k);
            if i < na.len() {
                assert(na[i] == k);
            } else {
                assert(nb[i - na.len()] == k);
            }
        }
    }
}

/// The entries as written hold exactly the section's values, each key
/// once.
pub proof fn lemma_written_entries(e: Entries, order: Seq<Seq<char>>)
    requires
        order.no_duplicates(),
        entry_names(e).no_duplicates(),
    ensures
        entry_names(written_entries(e, order)).no_duplicates(),
        forall|k: Seq<char>| #[trigger] lookup_entry(written_entries(e, order), k) == lookup_entry(e, k),
        forall|k: Seq<char>| #[trigger] entry_names(written_entries(e, order)).contains(k) == entry_names(e).contains(k),
{
    let a = ordered_entries(e, order, order.len() as int);
    let b = rest_entries(e, order, e.len() as int);
    lemma_ordered_entries(e, order, order.len() as int);
    lemma_rest_entries(e, order, e.len() as int);
    assert(order.take(order.len() as int) =~= order);
    assert(e.take(e.len() as int) =~= e);
    assert forall|t: Seq<char>| #[trigger] entry_names(a).contains(t) implies !entry_names(b).contains(t) by {
        assert(order.take(order.len() as int).contains(t));
    }
    assert forall|k: Seq<char>| #[trigger] lookup_entry(written_entries(e, order), k) == lookup_entry(e, k) by {
        lemma_lookup_concat(a, b, k);
        if entry_names(a).contains(k) {
            assert(order.take(order.len() as int).contains(k));
        }
    }
    assert forall|k: Seq<char>| #[trigger] entry_names(written_entries(e, order)).contains(k) == entry_names(e).contains(k) by {
        lemma_lookup_concat(a, b, k);
        if entry_names(e).contains(k) {
            if order.contains(k) {
                assert(lookup_entry(a, k) is Some);
            } else {
                assert(lookup_entry(b, k) is Some);
            }
        }
        if entry_names(a).contains(k) {
            assert(lookup_entry(a, k) is Some);
        }
    }
    lemma_lookup_concat(a, b, Seq::empty());
}

/// A text written on one line that reads back as itself once trimmed:
/// no line break, and no whitespace at either end.
pub open spec fn clean_text(t: Seq<char>) -> bool {
    &&& forall|i: int| 0 <= i < t.len() ==> #[trigger] t[i] != '\n'
    &&& t.len() > 0 ==> !spec_is_whitespace(t[0]) && !spec_is_whitespace(t.last())
}

/// A key that reads back as itself: a clean text without `=` that does not
/// start like a comment or a section header.
pub open spec fn clean_key(k: Seq<char>) -> bool {
    &&& clean_text(k)
    &&& forall|i: int| 0 <= i < k.len() ==> #[trigger] k[i] != '='
    &&& k.len() > 0 ==> k[0] != '#' && k[0] != ';' && k[0] != '['
}

/// Every key and value of a section reads back as itself.
pub open spec fn clean_entries(e: Entries) -> bool {
    forall|i: int| 0 <= i < e.len() ==> clean_key(#[trigger] e[i].0) && clean_text(e[i].1)
}

/// Lines joined, each followed by a line break.
pub open spec fn join_lines(ls: Seq<Seq<char>>) -> Seq<char>
    decreases ls.len(),
{
    if ls.len() == 0 {
        Seq::empty()
    } else {
        ls[0] + seq!['\n'] + join_lines(ls.drop_first())
    }
}

proof fn lemma_join_push(ls: Seq<Seq<char>>, l: Seq<char>)
    ensures
        join_lines(ls.push(l)) == join_lines(ls) + l + seq!['\n'],
    decreases ls.len(),
{
    if ls.len() == 0 {
        assert(ls.push(l).drop_first() =~= Seq::<Seq<char>>::empty());
        assert(join_lines(Seq::<Seq<char>>::empty()) == Seq::<char>::empty());
        assert(join_lines(ls.push(l)) =~= l + seq!['\n']);
    } else {
        lemma_join_push(ls.drop_first(), l);
        assert(ls.push(l).drop_first() =~= ls.drop_first().push(l));
        assert(join_lines(ls.push(l)) =~= join_lines(ls) + l + seq!['\n']);
    }
}

proof fn lemma_join_concat(a: Seq<Seq<char>>, b: Seq<Seq<char>>)
    ensures
        join_lines(a + b) == join_lines(a) + join_lines(b),
    decreases a.len(),
{
    if a.len() == 0 {
        assert(a + b =~= b);
        assert(join_lines(a) + join_lines(b) =~= join_lines(b));
    } else {
        lemma_join_concat(a.drop_first(), b);
        assert((a + b).drop_first() =~= a.drop_first() + b);
        assert(join_lines(a + b) =~= join_lines(a) + join_lines(b));
    }
}

/// A line that `str::lines` gives back as it is: no line break inside, no
/// carriage return at its end.
pub open spec fn plain_line(l: Seq<char>) -> bool {
    &&& forall|i: int| 0 <= i < l.len() ==> #[trigger] l[i] != '\n'
    &&& l.len() > 0 ==> l.last() != '\r'
}

proof fn lemma_lines_join(ls: Seq<Seq<char>>)
    requires
        forall|i: int| 0 <= i < ls.len() ==> plain_line(#[trigger] ls[i]),
    ensures
        spec_lines(join_lines(ls)) == ls,
    decreases ls.len(),
{
    if ls.len() > 0 {
        let l = ls[0];
        let rest = ls.drop_first();
        assert forall|i: int| 0 <= i < rest.len() implies plain_line(#[trigger] rest[i]) by {
            assert(rest[i] == ls[i + 1]);
        }
        lemma_lines_join(rest);
        let t = join_lines(ls);
        assert(plain_line(ls[0]));
        assert(t[l.len() as int] == '\n');
        assert forall|k: int| 0 <= k < l.len() implies t[k] != '\n' by {
            assert(t[k] == l[k]);
        }
        lemma_find_unique(t, '\n', l.len() as int);
        assert(t.take(l.len() as int) =~= l);
        assert(t.skip(l.len() as int + 1) =~= join_lines(rest));
        assert(spec_strip_cr(l) == l);
        assert(seq![l] + rest =~= ls);
    } else {
        assert(join_lines(ls).len() == 0);
    }
}

/// The line that writes one entry.
pub open spec fn entry_line(k: Seq<char>, v: Seq<char>) -> Seq<char> {
    k + " = "@ + v
}

/// The lines of a list of entries.
pub open spec fn entry_lines(r: Entries) -> Seq<Seq<char>>
    decreases r.len(),
{
    if r.len() == 0 {
        Seq::empty()
    } else {
        entry_lines(r.drop_last()).push(entry_line(r.last().0, r.last().1))
    }
}

proof fn lemma_entry_lines_concat(a: Entries, b: Entries)
    ensures
        entry_lines(a + b) == entry_lines(a) + entry_lines(b),
    decreases b.len(),
{
    if b.len() == 0 {
        assert(a + b =~= a);
        assert(entry_lines(a) + entry_lines(b) =~= entry_lines(a));
    } else {
        lemma_entry_lines_concat(a, b.drop_last());
        assert((a + b).drop_last() =~= a + b.drop_last());
        assert((a + b).last() == b.last());
        assert(entry_lines(a + b) =~= entry_lines(a) + entry_lines(b));
    }
}

proof fn lemma_render_ordered(e: Entries, order: Seq<Seq<char>>, n: int)
    ensures
        render_ordered(e, order, n) == join_lines(entry_lines(ordered_entries(e, order, n))),
    decreases n,
{
    reveal_strlit("\n");
    if n <= 0 {
        assert(entry_lines(Seq::<(Seq<char>, Seq<char>)>::empty()).len() == 0);
    } else {
        lemma_render_ordered(e, order, n - 1);
        let prev = ordered_entries(e, order, n - 1);
        match lookup_entry(e, order[n - 1]) {
            Some(v) => {
                let x = (order[n - 1], v);
                assert(prev.push(x).drop_last() =~= prev);
                lemma_join_push(entry_lines(prev), entry_line(order[n - 1], v));
                assert(render_entry(order[n - 1], v) =~= entry_line(order[n - 1], v) + seq!['\n']);
                assert(render_ordered(e, order, n) =~= join_lines(entry_lines(ordered_entries(e, order, n))));
            },
            None => {
                assert(render_ordered(e, order, n) =~= render_ordered(e, order, n - 1));
            },
        }
    }
}

proof fn lemma_render_rest(e: Entries, order: Seq<Seq<char>>, n: int)
    requires
        n <= e.len(),
    ensures
        render_rest(e, order, n) == join_lines(entry_lines(rest_entries(e, order, n))),
    decreases n,
{
    reveal_strlit("\n");
    if n <= 0 {
        assert(entry_lines(Seq::<(Seq<char>, Seq<char>)>::empty()).len() == 0);
    } else {
        lemma_render_rest(e, order, n - 1);
        let prev = rest_entries(e, order, n - 1);
        if order.contains(e[n - 1].0) {
            assert(render_rest(e, order, n) =~= render_rest(e, order, n - 1));
        } else {
            let x = e[n - 1];
            assert(prev.push(x).drop_last() =~= prev);
            lemma_join_push(entry_lines(prev), entry_line(x.0, x.1));
            assert(render_entry(x.0, x.1) =~= entry_line(x.0, x.1) + seq!['\n']);
            assert(render_rest(e, order, n) =~= join_lines(entry_lines(rest_entries(e, order, n))));
        }
    }
}

/// The lines that write a section that is there.
pub open spec fn section_lines(name: Seq<char>, e: Entries, order: Seq<Seq<char>>) -> Seq<Seq<char>> {
    seq!["["@ + name + "]"@] + entry_lines(written_entries(e, order)) + seq![Seq::<char>::empty()]
}

/// The lines that write a section, none where it is missing.
pub open spec fn lines_of(s: Sections, name: Seq<char>, order: Seq<Seq<char>>) -> Seq<Seq<char>> {
    match section_entries(s, name) {
        Some(e) => section_lines(name, e, order),
        None => Seq::empty(),
    }
}

proof fn lemma_render_section(s: Sections, name: Seq<char>, order: Seq<Seq<char>>)
    ensures
        render_section(s, name, order) == join_lines(lines_of(s, name, order)),
{
    reveal_strlit("\n");
    reveal_strlit("]\n");
    reveal_strlit("]");
    match section_entries(s, name) {
        Some(e) => {
            lemma_render_ordered(e, order, order.len() as int);
            lemma_render_rest(e, order, e.len() as int);
            let a = ordered_entries(e, order, order.len() as int);
            let b = rest_entries(e, order, e.len() as int);
            lemma_entry_lines_concat(a, b);
            lemma_join_concat(entry_lines(a), entry_lines(b));
            let head = seq!["["@ + name + "]"@];
            let body = entry_lines(written_entries(e, order));
            let tail = seq![Seq::<char>::empty()];
            lemma_join_concat(head + body, tail);
            lemma_join_concat(head, body);
            assert(join_lines(Seq::<Seq<char>>::empty()) == Seq::<char>::empty());
            assert(tail.drop_first() =~= Seq::<Seq<char>>::empty());
            assert(head.drop_first() =~= Seq::<Seq<char>>::empty());
            assert(join_lines(tail) =~= seq!['\n']);
            assert(join_lines(head) =~= "["@ + name + "]"@ + seq!['\n']);
            assert(render_section(s, name, order) =~= join_lines(lines_of(s, name, order)));
        },
        None => {
        },
    }
}

/// The reading state after each of `ls` in turn, from `st`.
pub open spec fn fold_lines(st: (Seq<char>, Sections), ls: Seq<Seq<char>>) -> (Seq<char>, Sections)
    decreases ls.len(),
{
    if ls.len() == 0 {
        st
    } else {
        parse_line(fold_lines(st, ls.drop_last()), ls.last())
    }
}

proof fn lemma_parse_fold(ls: Seq<Seq<char>>, n: int)
    requires
        0 <= n <= ls.len(),
    ensures
        parse_lines(ls, n) == fold_lines(("DEFAULT"@, Seq::empty()), ls.take(n)),
    decreases n,
{
    if n > 0 {
        lemma_parse_fold(ls, n - 1);
        assert(ls.take(n).drop_last() =~= ls.take(n - 1));
    } else {
        assert(ls.take(0).len() == 0);
    }
}

proof fn lemma_fold_concat(st: (Seq<char>, Sections), a: Seq<Seq<char>>, b: Seq<Seq<char>>)
    ensures
        fold_lines(st, a + b) == fold_lines(fold_lines(st, a), b),
    decreases b.len(),
{
    if b.len() == 0 {
        assert(a + b =~= a);
    } else {
        lemma_fold_concat(st, a, b.drop_last());
        assert((a + b).drop_last() =~= a + b.drop_last());
        assert((a + b).last() == b.last());
    }
}

proof fn lemma_trim_clean(t: Seq<char>)
    requires
        t.len() > 0 ==> !spec_is_whitespace(t[0]) && !spec_is_whitespace(t.last()),
    ensures
        spec_trim_start(t) == t,
        spec_trim_end(t) == t,
        spec_trim(t) == t,
{
}

proof fn lemma_trim_start_space(t: Seq<char>)
    ensures
        spec_trim_start(seq![' '] + t) == spec_trim_start(t),
{
    assert((seq![' '] + t).drop_first() =~= t);
}

proof fn lemma_trim_end_space(t: Seq<char>)
    ensures
        spec_trim_end(t + seq![' ']) == spec_trim_end(t),
{
    assert((t + seq![' ']).drop_last() =~= t);
}

/// The trimmed entry line: the key and a space where the key is not empty,
/// the `=`, and a space and the value where the value is not empty.
proof fn lemma_entry_line_trim(k: Seq<char>, v: Seq<char>)
    requires
        clean_text(k),
        clean_text(v),
    ensures
        spec_trim(entry_line(k, v)) == (if k.len() > 0 { k + seq![' '] } else { Seq::empty() }) + seq!['='] + (if v.len() > 0 {
            seq![' '] + v
        } else {
            Seq::empty()
        }),
{
    reveal_strlit(" = ");
    let l = entry_line(k, v);
    let lp = if k.len() > 0 { k + seq![' '] } else { Seq::<char>::empty() };
    let rp = if v.len() > 0 { seq![' '] + v } else { Seq::<char>::empty() };
    let u = lp + seq!['='] + seq![' '] + v;
    if k.len() > 0 {
        assert(l =~= u);
        assert(!spec_is_whitespace(l[0]));
    } else {
        assert(l =~= seq![' '] + (seq!['='] + seq![' '] + v));
        lemma_trim_start_space(seq!['='] + seq![' '] + v);
        assert((seq!['='] + seq![' '] + v)[0] == '=');
        assert(u =~= seq!['='] + seq![' '] + v);
    }
    assert(spec_trim_start(l) == u);
    if v.len() > 0 {
        assert(u.last() == v.last());
        assert(u =~= lp + seq!['='] + rp);
    } else {
        assert(u =~= (lp + seq!['=']) + seq![' ']);
        lemma_trim_end_space(lp + seq!['=']);
        assert((lp + seq!['=']).last() == '=');
        assert(lp + seq!['='] =~= lp + seq!['='] + rp);
    }
}

proof fn lemma_entry_line_parse(st: (Seq<char>, Sections), k: Seq<char>, v: Seq<char>)
    requires
        clean_key(k),
        clean_text(v),
    ensures
        parse_line(st, entry_line(k, v)) == (st.0, spec_set(st.1, st.0, k, v)),
{
    lemma_entry_line_trim(k, v);
    let lp = if k.len() > 0 { k + seq![' '] } else { Seq::<char>::empty() };
    let rp = if v.len() > 0 { seq![' '] + v } else { Seq::<char>::empty() };
    let t = lp + seq!['='] + rp;
    let i = lp.len() as int;
    assert(t[i] == '=');
    assert forall|j: int| 0 <= j < i implies t[j] != '=' by {
        assert(t[j] == lp[j]);
        if j < k.len() {
            assert(lp[j] == k[j]);
        }
    }
    lemma_find_unique(t, '=', i);
    assert(t.take(i) =~= lp);
    assert(t.skip(i + 1) =~= rp);
    if k.len() > 0 {
        assert(t[0] == k[0]);
        assert(spec_trim_end(lp) == spec_trim_end(k)) by {
            lemma_trim_end_space(k);
        }
        lemma_trim_clean(k);
        assert(spec_trim_start(lp) == lp);
    } else {
        assert(t[0] == '=');
    }
    if v.len() > 0 {
        lemma_trim_start_space(v);
        lemma_trim_clean(v);
        assert(spec_trim_end(v) == v);
        assert(spec_trim(rp) == v);
    } else {
        assert(spec_trim(rp) == v);
    }
    if k.len() > 0 {
        assert(spec_trim(lp) == k);
    } else {
        assert(spec_trim(lp) == k);
    }
    assert(spec_split_once(t, '=') == Some((lp, rp)));
    assert(spec_trim(entry_line(k, v)) == t);
    assert(t.len() > 0);
    assert(t[0] != '#' && t[0] != ';' && t[0] != '[');
}

proof fn lemma_entries_parse(name: Seq<char>, st: Sections, r: Entries)
    requires
        forall|i: int| 0 <= i < r.len() ==> clean_key(#[trigger] r[i].0) && clean_text(r[i].1),
    ensures
        fold_lines((name, st), entry_lines(r)) == (name, apply_entries(st, name, r)),
    decreases r.len(),
{
    if r.len() > 0 {
        let a = r.drop_last();
        assert forall|i: int| 0 <= i < a.len() implies clean_key(#[trigger] a[i].0) && clean_text(a[i].1) by {
            assert(a[i] == r[i]);
        }
        lemma_entries_parse(name, st, a);
        assert(entry_lines(r).drop_last() =~= entry_lines(a));
        assert(clean_key(r[r.len() - 1].0));
        lemma_entry_line_parse((name, apply_entries(st, name, a)), r.last().0, r.last().1);
    }
}

proof fn lemma_written_from(e: Entries, order: Seq<Seq<char>>)
    requires
        entry_names(e).no_duplicates(),
    ensures
        forall|i: int| 0 <= i < written_entries(e, order).len() ==> e.contains(#[trigger] written_entries(e, order)[i]),
{
    let w = written_entries(e, order);
    let a = ordered_entries(e, order, order.len() as int);
    let b = rest_entries(e, order, e.len() as int);
    lemma_ordered_from(e, order, order.len() as int);
    lemma_rest_from(e, order, e.len() as int);
    assert forall|i: int| 0 <= i < w.len() implies e.contains(#[trigger] w[i]) by {
        if i < a.len() {
            assert(w[i] == a[i]);
        } else {
            assert(w[i] == b[i - a.len()]);
        }
    }
}

proof fn lemma_ordered_from(e: Entries, order: Seq<Seq<char>>, n: int)
    requires
        entry_names(e).no_duplicates(),
    ensures
        forall|i: int| 0 <= i < ordered_entries(e, order, n).len() ==> e.contains(#[trigger] ordered_entries(e, order, n)[i]),
    decreases n,
{
    if n > 0 {
        lemma_ordered_from(e, order, n - 1);
        let prev = ordered_entries(e, order, n - 1);
        match lookup_entry(e, order[n - 1]) {
            Some(v) => {
                let names = entry_names(e);
                let j = names.index_of(order[n - 1]);
                assert(e[j] == (order[n - 1], v));
                assert forall|i: int| 0 <= i < prev.len() + 1 implies e.contains(#[trigger] prev.push((order[n - 1], v))[i]) by {
                    if i < prev.len() {
                        assert(prev.push((order[n - 1], v))[i] == prev[i]);
                    }
                }
            },
            None => {},
        }
    }
}

proof fn lemma_rest_from(e: Entries, order: Seq<Seq<char>>, n: int)
    requires
        n <= e.len(),
    ensures
        forall|i: int| 0 <= i < rest_entries(e, order, n).len() ==> e.contains(#[trigger] rest_entries(e, order, n)[i]),
    decreases n,
{
    if n > 0 {
        lemma_rest_from(e, order, n - 1);
        let prev = rest_entries(e, order, n - 1);
        if !order.contains(e[n - 1].0) {
            assert forall|i: int| 0 <= i < prev.len() + 1 implies e.contains(#[trigger] prev.push(e[n - 1])[i]) by {
                if i < prev.len() {
                    assert(prev.push(e[n - 1])[i] == prev[i]);
                }
            }
        }
    }
}

/// One of the two sections that are written.
pub open spec fn written_section(name: Seq<char>) -> bool {
    name == "DEFAULT"@ || name == "render"@
}

proof fn lemma_section_parse(cur: Seq<char>, st: Sections, name: Seq<char>, e: Entries, order: Seq<Seq<char>>)
    requires
        written_section(name),
        clean_entries(e),
        entry_names(e).no_duplicates(),
    ensures
        fold_lines((cur, st), section_lines(name, e, order)) == (name, apply_entries(st, name, written_entries(e, order))),
        forall|i: int| 0 <= i < section_lines(name, e, order).len() ==> plain_line(#[trigger] section_lines(name, e, order)[i]),
{
    reveal_strlit("[");
    reveal_strlit("]");
    reveal_strlit("DEFAULT");
    reveal_strlit("render");
    reveal_strlit(" = ");
    let w = written_entries(e, order);
    let header = "["@ + name + "]"@;
    let head = seq![header];
    let body = entry_lines(w);
    let tail = seq![Seq::<char>::empty()];
    lemma_written_from(e, order);
    assert forall|i: int| 0 <= i < w.len() implies clean_key(#[trigger] w[i].0) && clean_text(w[i].1) by {
        assert(e.contains(w[i]));
        let j = choose|j: int| 0 <= j < e.len() && #[trigger] e[j] == w[i];
        assert(clean_key(e[j].0));
    }
    // The header switches to the section.
    assert(header[0] == '[');
    assert(header.last() == ']');
    lemma_trim_clean(header);
    assert(header.subrange(1, header.len() - 1) =~= name);
    assert(parse_line((cur, st), header) == (name, st));
    assert(fold_lines((cur, st), head) == (name, st)) by {
        assert(head.drop_last() =~= Seq::<Seq<char>>::empty());
        assert(fold_lines((cur, st), Seq::<Seq<char>>::empty()) == (cur, st));
        assert(head.last() == header);
    }
    lemma_entries_parse(name, st, w);
    lemma_fold_concat((cur, st), head, body);
    lemma_fold_concat((cur, st), head + body, tail);
    let mid = fold_lines((cur, st), head + body);
    assert(mid == (name, apply_entries(st, name, w)));
    assert(tail.drop_last() =~= Seq::<Seq<char>>::empty());
    assert(fold_lines(mid, Seq::<Seq<char>>::empty()) == mid);
    assert(spec_trim(Seq::<char>::empty()) == Seq::<char>::empty());
    assert(parse_line(mid, Seq::<char>::empty()) == mid);
    assert(fold_lines(mid, tail) == mid);
    assert(section_lines(name, e, order) == head + body + tail);
    // Every line is plain.
    let ls = section_lines(name, e, order);
    assert forall|i: int| 0 <= i < body.len() implies plain_line(#[trigger] body[i]) by {
        lemma_entry_lines_plain(w, i);
    }
    assert forall|i: int| 0 <= i < ls.len() implies plain_line(#[trigger] ls[i]) by {
        if i == 0 {
            assert(ls[0] == header);
            assert forall|j: int| 0 <= j < header.len() implies #[trigger] header[j] != '\n' by {
                if 0 < j < header.len() - 1 {
                    assert(header[j] == name[j - 1]);
                }
            }
        } else if i <= body.len() {
            assert(ls[i] == body[i - 1]);
        } else {
            assert(ls[i] == Seq::<char>::empty());
        }
    }
}

proof fn lemma_entry_lines_plain(r: Entries, i: int)
    requires
        forall|t: int| 0 <= t < r.len() ==> clean_key(#[trigger] r[t].0) && clean_text(r[t].1),
        0 <= i < entry_lines(r).len(),
    ensures
        plain_line(entry_lines(r)[i]),
        entry_lines(r).len() == r.len(),
    decreases r.len(),
{
    reveal_strlit(" = ");
    lemma_entry_lines_len(r);
    if i < r.len() - 1 {
        let a = r.drop_last();
        assert forall|t: int| 0 <= t < a.len() implies clean_key(#[trigger] a[t].0) && clean_text(a[t].1) by {
            assert(a[t] == r[t]);
        }
        lemma_entry_lines_plain(a, i);
        assert(entry_lines(r)[i] == entry_lines(a)[i]);
    } else {
        let x = r[r.len() - 1];
        assert(clean_key(x.0));
        let l = entry_line(x.0, x.1);
        assert(entry_lines(r)[i] == l);
        assert forall|j: int| 0 <= j < l.len() implies #[trigger] l[j] != '\n' by {
            if j < x.0.len() {
                assert(l[j] == x.0[j]);
            } else if j >= x.0.len() + 3 {
                assert(l[j] == x.1[j - x.0.len() - 3]);
            }
        }
        if x.1.len() > 0 {
            assert(l.last() == x.1.last());
        } else {
            assert(l.last() == ' ');
        }
    }
}

proof fn lemma_entry_lines_len(r: Entries)
    ensures
        entry_lines(r).len() == r.len(),
    decreases r.len(),
{
    if r.len() > 0 {
        lemma_entry_lines_len(r.drop_last());
    }
}

proof fn lemma_orders_distinct()
    ensures
        default_order().no_duplicates(),
        render_order().no_duplicates(),
        "DEFAULT"@ != "render"@,
{
    reveal_strlit("host");
    reveal_strlit("port");
    reveal_strlit("debug");
    reveal_strlit("input_folder");
    reveal_strlit("output_folder");
    reveal_strlit("override_existed");
    reveal_strlit("supported_file_suffixes");
    reveal_strlit("quality");
    reveal_strlit("subsampling");
    reveal_strlit("DEFAULT");
    reveal_strlit("render");
    let o = default_order();
    assert("host"@[0] != "port"@[0]);
    assert forall|i: int, j: int| 0 <= i < o.len() && 0 <= j < o.len() && i != j implies o[i] != o[j] by {
        if o[i] == o[j] {
            assert(o[i].len() == o[j].len());
            assert(o[i][0] == o[j][0]);
        }
    }
    assert("DEFAULT"@.len() != "render"@.len());
}

/// Writing a configuration and reading the text back gives the same value
/// for every key of the `DEFAULT` and `render` sections, and no other
/// section, wherever those sections' keys and values are plain one-line
/// texts (`clean_entries`).
pub proof fn law_serialize_then_parse(s: Sections)
    requires
        ini_wf(s),
        forall|name: Seq<char>| #[trigger] written_section(name) ==> match section_entries(s, name) {
            Some(e) => clean_entries(e),
            None => true,
        },
    ensures
        forall|sec: Seq<char>, k: Seq<char>| #[trigger] lookup(spec_parse(spec_serialize(s)), sec, k) == if written_section(sec) {
            lookup(s, sec, k)
        } else {
            None
        },
{
    let d = "DEFAULT"@;
    let rn = "render"@;
    lemma_orders_distinct();
    assert(written_section(d));
    assert(written_section(rn));
    let ld = lines_of(s, d, default_order());
    let lr = lines_of(s, rn, render_order());
    let all = ld + lr;
    lemma_render_section(s, d, default_order());
    lemma_render_section(s, rn, render_order());
    lemma_join_concat(ld, lr);
    let text = spec_serialize(s);
    assert(text == join_lines(all));
    let init: (Seq<char>, Sections) = (d, Seq::empty());
    let empty: Sections = Seq::empty();
    assert(section_names(empty) =~= Seq::<Seq<char>>::empty());
    assert(ini_wf(empty));
    // The state after the `DEFAULT` lines.
    let st1: (Seq<char>, Sections) = match section_entries(s, d) {
        Some(e) => (d, apply_entries(empty, d, written_entries(e, default_order()))),
        None => init,
    };
    match section_entries(s, d) {
        Some(e) => {
            let i = section_names(s).index_of(d);
            assert(entry_names(s[i].1).no_duplicates());
            lemma_section_parse(d, empty, d, e, default_order());
        },
        None => {
            assert(ld.len() == 0);
        },
    }
    assert(fold_lines(init, ld) == st1);
    // The state after the `render` lines.
    let st2: (Seq<char>, Sections) = match section_entries(s, rn) {
        Some(e) => (rn, apply_entries(st1.1, rn, written_entries(e, render_order()))),
        None => st1,
    };
    match section_entries(s, rn) {
        Some(e) => {
            let i = section_names(s).index_of(rn);
            assert(entry_names(s[i].1).no_duplicates());
            lemma_section_parse(st1.0, st1.1, rn, e, render_order());
        },
        None => {
            assert(lr.len() == 0);
        },
    }
    assert(fold_lines(st1, lr) == st2);
    lemma_fold_concat(init, ld, lr);
    // The text splits back into the same lines.
    assert forall|i: int| 0 <= i < all.len() implies plain_line(#[trigger] all[i]) by {
        if i < ld.len() {
            assert(all[i] == ld[i]);
            match section_entries(s, d) {
                Some(e) => {
                    let j = section_names(s).index_of(d);
                    assert(entry_names(s[j].1).no_duplicates());
                    lemma_section_parse(d, empty, d, e, default_order());
                },
                None => {},
            }
        } else {
            assert(all[i] == lr[i - ld.len()]);
            match section_entries(s, rn) {
                Some(e) => {
                    let j = section_names(s).index_of(rn);
                    assert(entry_names(s[j].1).no_duplicates());
                    lemma_section_parse(st1.0, st1.1, rn, e, render_order());
                },
                None => {},
            }
        }
    }
    lemma_lines_join(all);
    lemma_parse_fold(all, all.len() as int);
    assert(all.take(all.len() as int) =~= all);
    assert(spec_parse(text) == st2.1);
    // What each lookup finds.
    match section_entries(s, d) {
        Some(e) => {
            let i = section_names(s).index_of(d);
            assert(entry_names(s[i].1).no_duplicates());
            lemma_written_entries(e, default_order());
            lemma_apply_entries(empty, d, written_entries(e, default_order()));
        },
        None => {},
    }
    assert(ini_wf(st1.1));
    match section_entries(s, rn) {
        Some(e) => {
            let i = section_names(s).index_of(rn);
            assert(entry_names(s[i].1).no_duplicates());
            lemma_written_entries(e, render_order());
            lemma_apply_entries(st1.1, rn, written_entries(e, render_order()));
        },
        None => {},
    }
    assert forall|sec: Seq<char>, k: Seq<char>| #[trigger] lookup(spec_parse(spec_serialize(s)), sec, k) == if written_section(sec) {
        lookup(s, sec, k)
    } else {
        None
    } by {
        assert(lookup(empty, sec, k) is None);
        match section_entries(s, d) {
            Some(e) => {
                let i = section_names(s).index_of(d);
                assert(entry_names(s[i].1).no_duplicates());
                lemma_written_entries(e, default_order());
            },
            None => {},
        }
        match section_entries(s, rn) {
            Some(e) => {
                let i = section_names(s).index_of(rn);
                assert(entry_names(s[i].1).no_duplicates());
                lemma_written_entries(e, render_order());
            },
            None => {},
        }
    }
}

} // verus!
