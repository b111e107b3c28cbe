//! Small operations on sequences that the graph model is written with.

use vstd::prelude::*;

verus! {

/// `s` with every occurrence of `x` taken out.
pub open spec fn without<T>(s: Seq<T>, x: T) -> Seq<T>
    decreases s.len(),
{
    if s.len() == 0 {
        s
    } else if s.last() == x {
        without(s.drop_last(), x)
    } else {
        without(s.drop_last(), x).push(s.last())
    }
}

/// The items of `s` that satisfy `pred`, in their order.
pub open spec fn keep<T>(s: Seq<T>, pred: spec_fn(T) -> bool) -> Seq<T>
    decreases s.len(),
{
    if s.len() == 0 {
        s
    } else if pred(s.last()) {
        keep(s.drop_last(), pred).push(s.last())
    } else {
        keep(s.drop_last(), pred)
    }
}

/// What `keep` keeps: exactly the items that satisfy the predicate.
pub proof fn lemma_keep<T>(s: Seq<T>, pred: spec_fn(T) -> bool)
    ensures
        forall|y: T| #[trigger] keep(s, pred).contains(y) <==> (s.contains(y) && pred(y)),
        s.no_duplicates() ==> keep(s, pred).no_duplicates(),
        keep(s, pred).len() <= s.len(),
    decreases s.len(),
{
    if s.len() > 0 {
        let init = s.drop_last();
        let w = keep(init, pred);
        lemma_keep(init, pred);
        assert forall|y: T| #[trigger] keep(s, pred).contains(y) <==> (s.contains(y) && pred(
            y,
        )) by {
            lemma_contains_push(init, s.last(), y);
            assert(init.push(s.last()) == s);
            if pred(s.last()) {
                lemma_contains_push(w, s.last(), y);
            }
            assert(w.contains(y) <==> (init.contains(y) && pred(y)));
        }
        if s.no_duplicates() {
            assert(init.no_duplicates());
            if pred(s.last()) {
                assert(!init.contains(s.last())) by {
                    if init.contains(s.last()) {
                        let j = init.index_of(s.last());
                        assert(s[j] == s[s.len() - 1]);
                    }
                }
                assert(w.contains(s.last()) <==> (init.contains(s.last()) && pred(s.last())));
                lemma_no_dup_push(w, s.last());
            }
        }
    }
}

/// Two predicates that agree on every item of a list keep the same items.
pub proof fn lemma_keep_agree<T>(s: Seq<T>, p: spec_fn(T) -> bool, q: spec_fn(T) -> bool)
    requires
        forall|i: int| 0 <= i < s.len() ==> p(#[trigger] s[i]) == q(s[i]),
    ensures
        keep(s, p) == keep(s, q),
    decreases s.len(),
{
    if s.len() > 0 {
        let init = s.drop_last();
        assert forall|i: int| 0 <= i < init.len() implies p(#[trigger] init[i]) == q(init[i]) by {
            assert(init[i] == s[i]);
        }
        lemma_keep_agree(init, p, q);
        assert(p(s[s.len() - 1]) == q(s[s.len() - 1]));
    }
}

/// `base`, followed by those items of `extra` that were not yet there, in the
/// order of `extra`.
pub open spec fn append_missing<T>(base: Seq<T>, extra: Seq<T>) -> Seq<T>
    decreases extra.len(),
{
    if extra.len() == 0 {
        base
    } else {
        let sofar = append_missing(base, extra.drop_last());
        if sofar.contains(extra.last()) {
            sofar
        } else {
            sofar.push(extra.last())
        }
    }
}

/// What `without` keeps: the items other than `x`, none of them gained or lost.
pub proof fn lemma_without<T>(s: Seq<T>, x: T)
    ensures
        forall|y: T| without(s, x).contains(y) <==> (s.contains(y) && y != x),
        s.no_duplicates() ==> without(s, x).no_duplicates(),
        !s.contains(x) ==> without(s, x) == s,
        without(s, x).len() <= s.len(),
    decreases s.len(),
{
    if s.len() > 0 {
        let init = s.drop_last();
        let w = without(init, x);
        lemma_without(init, x);
        assert forall|y: T| without(s, x).contains(y) <==> (s.contains(y) && y != x) by {
            lemma_contains_push(init, s.last(), y);
            assert(init.push(s.last()) == s);
            if s.last() != x {
                lemma_contains_push(w, s.last(), y);
            }
        }
        if s.no_duplicates() {
            assert(init.no_duplicates());
            if s.last() != x {
                assert(!init.contains(s.last())) by {
                    if init.contains(s.last()) {
                        let j = init.index_of(s.last());
                        assert(s[j] == s[s.len() - 1]);
                    }
                }
                lemma_no_dup_push(w, s.last());
            }
        }
        if !s.contains(x) {
            assert(s.last() != x) by {
                assert(s[s.len() - 1] == s.last());
            }
            assert(!init.contains(x)) by {
                if init.contains(x) {
                    let j = init.index_of(x);
                    assert(s[j] == x);
                }
            }
            assert(init.push(s.last()) == s);
        }
    }
}

/// What `append_missing` holds: the items of both, and nothing twice if
/// `base` held nothing twice.
pub proof fn lemma_append_missing<T>(base: Seq<T>, extra: Seq<T>)
    ensures
        forall|y: T| append_missing(base, extra).contains(y) <==> (base.contains(y) || extra.contains(y)),
        base.no_duplicates() ==> append_missing(base, extra).no_duplicates(),
        append_missing(base, extra).len() >= base.len(),
    decreases extra.len(),
{
    if extra.len() > 0 {
        let init = extra.drop_last();
        let sofar = append_missing(base, init);
        lemma_append_missing(base, init);
        assert forall|y: T| append_missing(base, extra).contains(y) <==> (base.contains(y)
            || extra.contains(y)) by {
            lemma_contains_push(init, extra.last(), y);
            assert(init.push(extra.last()) == extra);
            lemma_contains_push(sofar, extra.last(), y);
        }
        if base.no_duplicates() && !sofar.contains(extra.last()) {
            lemma_no_dup_push(sofar, extra.last());
        }
    }
}

/// Membership after a push.
pub proof fn lemma_contains_push<T>(s: Seq<T>, x: T, y: T)
    ensures
        s.push(x).contains(y) <==> (s.contains(y) || y == x),
{
    let t = s.push(x);
    if s.contains(y) {
        let j = s.index_of(y);
        assert(t[j] == y);
    }
    if y == x {
        assert(t[s.len() as int] == y);
    }
    if t.contains(y) {
        let j = t.index_of(y);
        if j < s.len() {
            assert(s[j] == y);
        }
    }
}

/// Pushing an item that was not there keeps a list free of repeats.
pub proof fn lemma_no_dup_push<T>(s: Seq<T>, x: T)
    requires
        s.no_duplicates(),
        !s.contains(x),
    ensures
        s.push(x).no_duplicates(),
{
    let t = s.push(x);
    assert forall|i: int, j: int| 0 <= i < t.len() && 0 <= j < t.len() && i != j implies t[i]
        != t[j] by {
        if i < s.len() && j < s.len() {
        } else if i < s.len() {
            assert(s.contains(s[i]));
        } else {
            assert(s.contains(s[j]));
        }
    }
}

} // verus!
