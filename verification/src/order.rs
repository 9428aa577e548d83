//! Stable insertion orders: the specifications of the sorts the index performs, and their laws.

use crate::text::{lex_lt, lemma_lex_total, lemma_lex_transitive};
use vstd::prelude::*;

verus! {

/// Position at which `x` is inserted into `s`: before the first element that `x` goes before.
pub open spec fn insert_pos<T>(s: Seq<T>, x: T, before: spec_fn(T, T) -> bool) -> nat
    decreases s.len(),
{
    if s.len() == 0 || before(x, s[0]) {
        0
    } else {
        1 + insert_pos(s.drop_first(), x, before)
    }
}

/// `s` with `x` inserted after every element that `x` does not go before.
pub open spec fn insert_sorted<T>(s: Seq<T>, x: T, before: spec_fn(T, T) -> bool) -> Seq<T> {
    s.insert(insert_pos(s, x, before) as int, x)
}

/// The stable insertion sort of `s` by `before`.
pub open spec fn insertion_sort<T>(s: Seq<T>, before: spec_fn(T, T) -> bool) -> Seq<T>
    decreases s.len(),
{
    if s.len() == 0 {
        Seq::empty()
    } else {
        insert_sorted(insertion_sort(s.drop_last(), before), s.last(), before)
    }
}

/// No element goes before an element that precedes it.
pub open spec fn sorted_by<T>(s: Seq<T>, before: spec_fn(T, T) -> bool) -> bool {
    forall|i: int, j: int| 0 <= i < j < s.len() ==> !before(#[trigger] s[j], #[trigger] s[i])
}

/// `before` is a strict order: asymmetric and transitive.
pub open spec fn strict_order<T>(before: spec_fn(T, T) -> bool) -> bool {
    &&& forall|a: T, b: T| #[trigger] before(a, b) ==> !before(b, a)
    &&& forall|a: T, b: T, c: T| #[trigger] before(a, b) && #[trigger] before(b, c) ==> before(a, c)
}

pub proof fn lemma_insert_pos_props<T>(s: Seq<T>, x: T, before: spec_fn(T, T) -> bool)
    ensures
        insert_pos(s, x, before) <= s.len(),
        forall|i: int| 0 <= i < insert_pos(s, x, before) ==> !before(x, #[trigger] s[i]),
        insert_pos(s, x, before) < s.len() ==> before(x, s[insert_pos(s, x, before) as int]),
    decreases s.len(),
{
    if s.len() > 0 && !before(x, s[0]) {
        lemma_insert_pos_props(s.drop_first(), x, before);
        assert forall|i: int| 0 <= i < insert_pos(s, x, before) implies !before(x, #[trigger] s[i]) by {
            if i > 0 {
                assert(s[i] == s.drop_first()[i - 1]);
            }
        }
    }
}

/// Inserting into a sorted sequence keeps it sorted.
pub proof fn lemma_insert_sorted<T>(s: Seq<T>, x: T, before: spec_fn(T, T) -> bool)
    requires
        strict_order(before),
        sorted_by(s, before),
    ensures
        sorted_by(insert_sorted(s, x, before), before),
        insert_sorted(s, x, before).to_multiset() == s.to_multiset().insert(x),
        insert_sorted(s, x, before).len() == s.len() + 1,
        insert_pos(s, x, before) <= s.len(),
{
    let p = insert_pos(s, x, before) as int;
    lemma_insert_pos_props(s, x, before);
    let r = s.insert(p, x);
    s.insert_ensures(p, x);
    assert forall|i: int, j: int| 0 <= i < j < r.len() implies !before(#[trigger] r[j], #[trigger] r[i]) by {
        if j < p {
        } else if j == p {
            assert(r[i] == s[i]);
        } else if i < p {
            assert(r[j] == s[j - 1]);
            assert(r[i] == s[i]);
        } else if i == p {
            assert(r[j] == s[j - 1]);
            if before(s[j - 1], x) {
                if j - 1 == p {
                    assert(before(x, s[p]));
                } else {
                    assert(before(x, s[p]));
                    assert(!before(s[j - 1], s[p]));
                }
            }
        } else {
            assert(r[j] == s[j - 1]);
            assert(r[i] == s[i - 1]);
        }
    }
    vstd::seq_lib::to_multiset_insert(s, p, x);
}

/// The insertion sort is sorted and is a permutation of its input.
pub proof fn lemma_insertion_sort<T>(s: Seq<T>, before: spec_fn(T, T) -> bool)
    requires
        strict_order(before),
    ensures
        sorted_by(insertion_sort(s, before), before),
        insertion_sort(s, before).to_multiset() == s.to_multiset(),
        insertion_sort(s, before).len() == s.len(),
    decreases s.len(),
{
    broadcast use vstd::seq_lib::to_multiset_build, vstd::seq_lib::to_multiset_len;

    if s.len() == 0 {
        assert(insertion_sort(s, before) =~= s);
    } else {
        lemma_insertion_sort(s.drop_last(), before);
        lemma_insert_sorted(insertion_sort(s.drop_last(), before), s.last(), before);
        assert(s.drop_last().push(s.last()) =~= s);
    }
}

// ---------------------------------------------------------------------------
// Sorted sets of strings

/// The lexicographic order as a relation.
pub open spec fn lex_order() -> spec_fn(Seq<char>, Seq<char>) -> bool {
    |a: Seq<char>, b: Seq<char>| lex_lt(a, b)
}

/// `s` with `x` added in lexicographic position, unless `x` is already there.
pub open spec fn set_insert(s: Seq<Seq<char>>, x: Seq<char>) -> Seq<Seq<char>> {
    if s.contains(x) {
        s
    } else {
        insert_sorted(s, x, lex_order())
    }
}

/// Every element of `xs` added in turn to `s` by [`set_insert`].
pub open spec fn set_insert_all(s: Seq<Seq<char>>, xs: Seq<Seq<char>>) -> Seq<Seq<char>>
    decreases xs.len(),
{
    if xs.len() == 0 {
        s
    } else {
        set_insert(set_insert_all(s, xs.drop_last()), xs.last())
    }
}

/// Strictly increasing in lexicographic order.
pub open spec fn strictly_increasing(s: Seq<Seq<char>>) -> bool {
    forall|i: int, j: int| 0 <= i < j < s.len() ==> lex_lt(#[trigger] s[i], #[trigger] s[j])
}

/// The lexicographic order is a strict order.
pub proof fn lemma_lex_strict_order()
    ensures
        strict_order(lex_order()),
{
    assert forall|a: Seq<char>, b: Seq<char>| lex_lt(a, b) implies !lex_lt(b, a) by {
        lemma_lex_total(a, b);
    }
    assert forall|a: Seq<char>, b: Seq<char>, c: Seq<char>| lex_lt(a, b) && lex_lt(b, c) implies lex_lt(a, c) by {
        lemma_lex_transitive(a, b, c);
    }
}

/// Adding to a strictly increasing sequence keeps it strictly increasing and adds `x` to its set.
pub proof fn lemma_set_insert(s: Seq<Seq<char>>, x: Seq<char>)
    requires
        strictly_increasing(s),
    ensures
        strictly_increasing(set_insert(s, x)),
        set_insert(s, x).to_set() == s.to_set().insert(x),
{
    let lt = lex_order();
    if s.contains(x) {
        assert(s.to_set().insert(x) =~= s.to_set());
    } else {
        lemma_lex_strict_order();
        assert(sorted_by(s, lt)) by {
            assert forall|i: int, j: int| 0 <= i < j < s.len() implies !lt(#[trigger] s[j], #[trigger] s[i]) by {
                lemma_lex_total(s[i], s[j]);
            }
        }
        lemma_insert_sorted(s, x, lt);
        let r = insert_sorted(s, x, lt);
        let p = insert_pos(s, x, lt) as int;
        lemma_insert_pos_props(s, x, lt);
        s.insert_ensures(p, x);
        assert forall|i: int, j: int| 0 <= i < j < r.len() implies lex_lt(#[trigger] r[i], #[trigger] r[j]) by {
            lemma_lex_total(r[i], r[j]);
            if r[i] == r[j] {
                if i < p && j < p {
                } else if i < p && j == p {
                    assert(s.contains(r[i]));
                } else if i == p {
                    assert(r[j] == s[j - 1]);
                    assert(s.contains(r[j]));
                } else if i < p {
                    assert(r[j] == s[j - 1]);
                } else {
                    assert(r[j] == s[j - 1]);
                    assert(r[i] == s[i - 1]);
                }
            }
        }
        assert(r.to_set() =~= s.to_set().insert(x)) by {
            assert forall|y: Seq<char>| r.to_set().contains(y) <==> s.to_set().insert(x).contains(y) by {
                if r.contains(y) {
                    let k = choose|k: int| 0 <= k < r.len() && r[k] == y;
                    if k < p {
                        assert(s[k] == y);
                    } else if k > p {
                        assert(s[k - 1] == y);
                    }
                }
                if s.contains(y) {
                    let k = choose|k: int| 0 <= k < s.len() && s[k] == y;
                    if k < p {
                        assert(r[k] == y);
                    } else {
                        assert(r[k + 1] == y);
                    }
                }
                if y == x {
                    assert(r[p] == y);
                }
            }
        }
    }
}

/// Adding `a` then `b` is adding `a + b`.
pub proof fn lemma_set_insert_all_append(s: Seq<Seq<char>>, a: Seq<Seq<char>>, b: Seq<Seq<char>>)
    ensures
        set_insert_all(s, a + b) == set_insert_all(set_insert_all(s, a), b),
    decreases b.len(),
{
    if b.len() == 0 {
        assert(a + b =~= a);
    } else {
        lemma_set_insert_all_append(s, a, b.drop_last());
        assert((a + b).drop_last() =~= a + b.drop_last());
        assert((a + b).last() == b.last());
    }
}

/// Adding every element of `xs` keeps the sequence strictly increasing and adds the elements to its set.
pub proof fn lemma_set_insert_all(s: Seq<Seq<char>>, xs: Seq<Seq<char>>)
    requires
        strictly_increasing(s),
    ensures
        strictly_increasing(set_insert_all(s, xs)),
        set_insert_all(s, xs).to_set() == s.to_set().union(xs.to_set()),
    decreases xs.len(),
{
    if xs.len() == 0 {
        assert(s.to_set().union(xs.to_set()) =~= s.to_set());
    } else {
        lemma_set_insert_all(s, xs.drop_last());
        lemma_set_insert(set_insert_all(s, xs.drop_last()), xs.last());
        assert(xs.drop_last().push(xs.last()) =~= xs);
        assert(s.to_set().union(xs.to_set()) =~= s.to_set().union(xs.drop_last().to_set()).insert(xs.last())) by {
            assert forall|y: Seq<char>| xs.to_set().contains(y) <==> (xs.drop_last().to_set().contains(y) || y == xs.last()) by {
                if xs.contains(y) {
                    let k = choose|k: int| 0 <= k < xs.len() && xs[k] == y;
                    if k < xs.len() - 1 {
                        assert(xs.drop_last()[k] == y);
                    }
                }
                if xs.drop_last().contains(y) {
                    let k = choose|k: int| 0 <= k < xs.drop_last().len() && xs.drop_last()[k] == y;
                    assert(xs[k] == y);
                }
                if y == xs.last() {
                    assert(xs[xs.len() - 1] == y);
                }
            }
        }
    }
}

} // verus!
