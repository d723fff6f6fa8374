//! The first and the last element of a sequence that a predicate picks.

use vstd::prelude::*;

verus! {

/// Index of the first element of `s` that meets `p`.
pub open spec fn first<A>(s: Seq<A>, p: spec_fn(A) -> bool) -> Option<int>
    decreases s.len(),
{
    if s.len() == 0 {
        None
    } else {
        match first(s.drop_last(), p) {
            Some(i) => Some(i),
            None => if p(s.last()) {
                Some(s.len() - 1)
            } else {
                None
            },
        }
    }
}

/// Index of the last element of `s` that meets `p`.
pub open spec fn last<A>(s: Seq<A>, p: spec_fn(A) -> bool) -> Option<int>
    decreases s.len(),
{
    if s.len() == 0 {
        None
    } else if p(s.last()) {
        Some(s.len() - 1)
    } else {
        last(s.drop_last(), p)
    }
}

/// What `first` finds meets the predicate and nothing before it does; where it
/// finds nothing, nothing does.
pub proof fn lemma_first<A>(s: Seq<A>, p: spec_fn(A) -> bool)
    ensures
        match first(s, p) {
            Some(i) => 0 <= i < s.len() && p(s[i]) && forall|j: int| 0 <= j < i ==> !p(s[j]),
            None => forall|j: int| 0 <= j < s.len() ==> !p(s[j]),
        },
    decreases s.len(),
{
    if s.len() > 0 {
        let t = s.drop_last();
        lemma_first(t, p);
        assert forall|j: int| 0 <= j < t.len() && !p(t[j]) implies !p(s[j]) by {
            assert(t[j] == s[j]);
        }
        match first(t, p) {
            Some(i) => {
                assert(t[i] == s[i]);
                assert forall|j: int| 0 <= j < i implies !p(s[j]) by {
                    assert(t[j] == s[j]);
                }
            },
            None => {
                assert forall|j: int| 0 <= j < t.len() implies !p(s[j]) by {
                    assert(t[j] == s[j]);
                }
            },
        }
    }
}

/// What `last` finds meets the predicate and nothing after it does; where it
/// finds nothing, nothing does.
pub proof fn lemma_last<A>(s: Seq<A>, p: spec_fn(A) -> bool)
    ensures
        match last(s, p) {
            Some(i) => 0 <= i < s.len() && p(s[i]) && forall|j: int| i < j < s.len() ==> !p(s[j]),
            None => forall|j: int| 0 <= j < s.len() ==> !p(s[j]),
        },
    decreases s.len(),
{
    if s.len() > 0 && !p(s.last()) {
        let t = s.drop_last();
        lemma_last(t, p);
        match last(t, p) {
            Some(i) => {
                assert(t[i] == s[i]);
                assert forall|j: int| i < j < s.len() implies !p(s[j]) by {
                    if j < t.len() {
                        assert(t[j] == s[j]);
                    }
                }
            },
            None => {
                assert forall|j: int| 0 <= j < s.len() implies !p(s[j]) by {
                    if j < t.len() {
                        assert(t[j] == s[j]);
                    }
                }
            },
        }
    }
}

/// `first` finds the element that meets the predicate with none before it.
pub proof fn lemma_first_is<A>(s: Seq<A>, p: spec_fn(A) -> bool, i: int)
    requires
        0 <= i < s.len(),
        p(s[i]),
        forall|j: int| 0 <= j < i ==> !p(s[j]),
    ensures
        first(s, p) == Some(i),
{
    lemma_first(s, p);
}

/// `first` finds nothing where nothing meets the predicate.
pub proof fn lemma_first_none<A>(s: Seq<A>, p: spec_fn(A) -> bool)
    requires
        forall|j: int| 0 <= j < s.len() ==> !p(s[j]),
    ensures
        first(s, p) is None,
{
    lemma_first(s, p);
}

/// The first element is found in the same place in two sequences that the
/// predicate does not tell apart.
pub proof fn lemma_same_first<A>(a: Seq<A>, b: Seq<A>, p: spec_fn(A) -> bool)
    requires
        a.len() == b.len(),
        forall|i: int| 0 <= i < a.len() ==> p(#[trigger] b[i]) == p(a[i]),
    ensures
        first(b, p) == first(a, p),
{
    lemma_first(a, p);
    match first(a, p) {
        Some(t) => {
            assert(p(b[t]));
            assert forall|j: int| 0 <= j < t implies !p(b[j]) by {
                assert(!p(a[j]));
            }
            lemma_first_is(b, p, t);
        },
        None => {
            assert forall|j: int| 0 <= j < b.len() implies !p(b[j]) by {
                assert(!p(a[j]));
            }
            lemma_first_none(b, p);
        },
    }
}

/// Two filters that agree on a sequence keep the same of it.
pub proof fn lemma_same_filter<A>(s: Seq<A>, p: spec_fn(A) -> bool, q: spec_fn(A) -> bool)
    requires
        forall|i: int| 0 <= i < s.len() ==> p(#[trigger] s[i]) == q(s[i]),
    ensures
        s.filter(p) == s.filter(q),
    decreases s.len(),
{
    reveal(Seq::filter);
    if s.len() > 0 {
        let t = s.drop_last();
        assert forall|i: int| 0 <= i < t.len() implies p(#[trigger] t[i]) == q(t[i]) by {
            assert(t[i] == s[i]);
        }
        assert(p(s[s.len() - 1]) == q(s[s.len() - 1]));
        lemma_same_filter(t, p, q);
    } else {
        assert(s.filter(p) =~= s.filter(q));
    }
}

/// Two filters one after the other are a filter by both.
pub proof fn lemma_filter_twice<A>(
    s: Seq<A>,
    p: spec_fn(A) -> bool,
    q: spec_fn(A) -> bool,
    both: spec_fn(A) -> bool,
)
    requires
        forall|x: A| #[trigger] both(x) == (p(x) && q(x)),
    ensures
        s.filter(p).filter(q) == s.filter(both),
    decreases s.len(),
{
    reveal(Seq::filter);
    if s.len() > 0 {
        let t = s.drop_last();
        lemma_filter_twice(t, p, q, both);
        assert(both(s.last()) == (p(s.last()) && q(s.last())));
        if p(s.last()) {
            lemma_filter_push(t.filter(p), s.last(), q);
        }
    } else {
        assert(s.filter(p).filter(q) =~= s.filter(both));
    }
}

/// One more element at the end of a filtered sequence.
pub proof fn lemma_filter_push<A>(s: Seq<A>, x: A, p: spec_fn(A) -> bool)
    ensures
        s.push(x).filter(p) == if p(x) {
            s.filter(p).push(x)
        } else {
            s.filter(p)
        },
{
    reveal(Seq::filter);
    assert(s.push(x).drop_last() =~= s);
}

/// A filtered prefix grows by the next element, if that meets the predicate.
pub proof fn lemma_filter_take<A>(s: Seq<A>, i: int, p: spec_fn(A) -> bool)
    requires
        0 <= i < s.len(),
    ensures
        s.take(i + 1).filter(p) == if p(s[i]) {
            s.take(i).filter(p).push(s[i])
        } else {
            s.take(i).filter(p)
        },
{
    assert(s.take(i + 1) =~= s.take(i).push(s[i]));
    lemma_filter_push(s.take(i), s[i], p);
}

/// A filter keeps exactly the elements that meet the predicate.
pub proof fn lemma_filter_contains<A>(s: Seq<A>, p: spec_fn(A) -> bool, x: A)
    ensures
        s.filter(p).contains(x) <==> s.contains(x) && p(x),
    decreases s.len(),
{
    reveal(Seq::filter);
    if s.len() > 0 {
        let t = s.drop_last();
        lemma_filter_contains(t, p, x);
        assert(s =~= t.push(s.last()));
        assert(s.contains(x) <==> t.contains(x) || s.last() == x) by {
            if t.contains(x) {
                let k = choose|k: int| 0 <= k < t.len() && t[k] == x;
                assert(s[k] == x);
            }
        }
        let f = t.filter(p);
        if p(s.last()) {
            assert(s.filter(p) == f.push(s.last()));
            assert(f.push(s.last()).contains(x) <==> f.contains(x) || s.last() == x) by {
                assert(f.push(s.last())[f.len() as int] == s.last());
                if f.contains(x) {
                    let k = choose|k: int| 0 <= k < f.len() && f[k] == x;
                    assert(f.push(s.last())[k] == x);
                }
            }
        }
    } else {
        assert(s.filter(p) =~= Seq::<A>::empty());
    }
}

/// A filter makes a sequence no longer.
pub proof fn lemma_filter_is_short<A>(s: Seq<A>, p: spec_fn(A) -> bool)
    ensures
        s.filter(p).len() <= s.len(),
    decreases s.len(),
{
    reveal(Seq::filter);
    if s.len() > 0 {
        lemma_filter_is_short(s.drop_last(), p);
    }
}

/// A filter of a sequence without duplicates has none.
pub proof fn lemma_filter_no_duplicates<A>(s: Seq<A>, p: spec_fn(A) -> bool)
    requires
        s.no_duplicates(),
    ensures
        s.filter(p).no_duplicates(),
    decreases s.len(),
{
    reveal(Seq::filter);
    if s.len() > 0 {
        let t = s.drop_last();
        lemma_filter_no_duplicates(t, p);
        lemma_filter_contains(t, p, s.last());
        let f = t.filter(p);
        if f.contains(s.last()) {
            let k = choose|k: int| 0 <= k < t.len() && t[k] == s.last();
            assert(s[k] == s[s.len() - 1]);
        }
        let all = s.filter(p);
        assert forall|i: int, j: int|
            0 <= i < all.len() && 0 <= j < all.len() && i != j implies all[i] != all[j] by {
            if i < f.len() {
                assert(f.contains(f[i]));
            }
            if j < f.len() {
                assert(f.contains(f[j]));
            }
        }
    }
}

/// A filter that every element meets changes nothing.
pub proof fn lemma_filter_all<A>(s: Seq<A>, p: spec_fn(A) -> bool)
    requires
        forall|i: int| 0 <= i < s.len() ==> p(s[i]),
    ensures
        s.filter(p) == s,
    decreases s.len(),
{
    reveal(Seq::filter);
    if s.len() > 0 {
        let t = s.drop_last();
        assert forall|i: int| 0 <= i < t.len() implies p(t[i]) by {
            assert(t[i] == s[i]);
        }
        lemma_filter_all(t, p);
        assert(t.push(s.last()) =~= s);
    } else {
        assert(s.filter(p) =~= s);
    }
}

} // verus!
