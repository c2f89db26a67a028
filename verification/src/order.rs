//! Stable sorting by a key.
use vstd::prelude::*;

verus! {

/// Values with a total preorder: the order of their sort keys.
pub trait SortKey: Sized {
    /// The key of `a` is not above the key of `b`.
    spec fn not_above(a: Self, b: Self) -> bool;

    /// Any two keys are comparable.
    proof fn total(a: Self, b: Self)
        ensures
            Self::not_above(a, b) || Self::not_above(b, a),
    ;

    /// Keys are ordered transitively.
    proof fn transitive(a: Self, b: Self, c: Self)
        requires
            Self::not_above(a, b),
            Self::not_above(b, c),
        ensures
            Self::not_above(a, c),
    ;

    /// Compares two keys.
    fn key_not_above(a: &Self, b: &Self) -> (r: bool)
        ensures
            r == Self::not_above(*a, *b),
    ;
}

/// `x` put in front of the first value whose key is not below its own.
pub open spec fn insert_sorted<T: SortKey>(s: Seq<T>, x: T) -> Seq<T>
    decreases s.len(),
{
    if s.len() == 0 || T::not_above(x, s[0]) {
        seq![x] + s
    } else {
        seq![s[0]] + insert_sorted(s.skip(1), x)
    }
}

/// The values ordered by key; values with equal keys keep their order.
pub open spec fn stable_sorted<T: SortKey>(s: Seq<T>) -> Seq<T>
    decreases s.len(),
{
    if s.len() == 0 {
        s
    } else {
        insert_sorted(stable_sorted(s.skip(1)), s[0])
    }
}

/// Every value's key is not above the keys behind it.
pub open spec fn is_sorted<T: SortKey>(s: Seq<T>) -> bool {
    forall|i: int, j: int| 0 <= i < j < s.len() ==> T::not_above(#[trigger] s[i], #[trigger] s[j])
}

proof fn lemma_insert_sorted<T: SortKey>(s: Seq<T>, x: T)
    requires
        is_sorted(s),
    ensures
        is_sorted(insert_sorted(s, x)),
        insert_sorted(s, x).to_multiset() =~= s.to_multiset().insert(x),
        insert_sorted(s, x).len() == s.len() + 1,
        forall|y: T| #[trigger] insert_sorted(s, x).contains(y) <==> y == x || s.contains(y),
    decreases s.len(),
{
    broadcast use vstd::seq_lib::group_to_multiset_ensures;

    let r = insert_sorted(s, x);
    if s.len() == 0 || T::not_above(x, s[0]) {
        assert(r =~= s.insert(0, x));
        vstd::seq_lib::to_multiset_insert(s, 0, x);
        assert forall|i: int, j: int| 0 <= i < j < r.len() implies T::not_above(
            #[trigger] r[i],
            #[trigger] r[j],
        ) by {
            if i == 0 {
                if j > 1 {
                    assert(T::not_above(s[0], s[j - 1]));
                    T::transitive(x, s[0], s[j - 1]);
                }
            } else {
                assert(T::not_above(s[i - 1], s[j - 1]));
            }
        }
        assert forall|y: T| #[trigger] r.contains(y) <==> y == x || s.contains(y) by {
            if y == x {
                assert(r[0] == y);
            }
            if s.contains(y) {
                let k = choose|k: int| 0 <= k < s.len() && s[k] == y;
                assert(r[k + 1] == y);
            }
            if r.contains(y) {
                let k = choose|k: int| 0 <= k < r.len() && r[k] == y;
                if k > 0 {
                    assert(s[k - 1] == y);
                }
            }
        }
    } else {
        let rest = s.skip(1);
        assert(is_sorted(rest)) by {
            assert forall|i: int, j: int| 0 <= i < j < rest.len() implies T::not_above(
                #[trigger] rest[i],
                #[trigger] rest[j],
            ) by {
                assert(T::not_above(s[i + 1], s[j + 1]));
            }
        }
        lemma_insert_sorted(rest, x);
        let inner = insert_sorted(rest, x);
        T::total(x, s[0]);
        assert(r =~= inner.insert(0, s[0]));
        vstd::seq_lib::to_multiset_insert(inner, 0, s[0]);
        assert(s =~= rest.insert(0, s[0]));
        vstd::seq_lib::to_multiset_insert(rest, 0, s[0]);
        assert forall|i: int, j: int| 0 <= i < j < r.len() implies T::not_above(
            #[trigger] r[i],
            #[trigger] r[j],
        ) by {
            if i == 0 {
                assert(inner.contains(r[j])) by {
                    assert(inner[j - 1] == r[j]);
                }
                if r[j] != x {
                    let k = choose|k: int| 0 <= k < rest.len() && rest[k] == r[j];
                    assert(T::not_above(s[0], s[k + 1]));
                }
            } else {
                assert(T::not_above(inner[i - 1], inner[j - 1]));
            }
        }
        assert forall|y: T| #[trigger] r.contains(y) <==> y == x || s.contains(y) by {
            if r.contains(y) {
                let k = choose|k: int| 0 <= k < r.len() && r[k] == y;
                if k == 0 {
                    assert(s[0] == y);
                } else {
                    assert(inner[k - 1] == y);
                    assert(inner.contains(y));
                    if y != x {
                        let m = choose|m: int| 0 <= m < rest.len() && rest[m] == y;
                        assert(s[m + 1] == y);
                    }
                }
            }
            if y == x {
                assert(inner.contains(y));
                let k = choose|k: int| 0 <= k < inner.len() && inner[k] == y;
                assert(r[k + 1] == y);
            }
            if s.contains(y) {
                let k = choose|k: int| 0 <= k < s.len() && s[k] == y;
                if k == 0 {
                    assert(r[0] == y);
                } else {
                    assert(rest[k - 1] == y);
                    assert(inner.contains(y));
                    let m = choose|m: int| 0 <= m < inner.len() && inner[m] == y;
                    assert(r[m + 1] == y);
                }
            }
        }
    }
}

/// Stable sorting orders the values by key and keeps every one of them.
pub proof fn lemma_stable_sorted<T: SortKey>(s: Seq<T>)
    ensures
        is_sorted(stable_sorted(s)),
        stable_sorted(s).to_multiset() =~= s.to_multiset(),
        stable_sorted(s).len() == s.len(),
        forall|y: T| #[trigger] stable_sorted(s).contains(y) <==> s.contains(y),
    decreases s.len(),
{
    broadcast use vstd::seq_lib::group_to_multiset_ensures;

    if s.len() > 0 {
        let rest = s.skip(1);
        lemma_stable_sorted(rest);
        lemma_insert_sorted(stable_sorted(rest), s[0]);
        assert(s =~= rest.insert(0, s[0]));
        vstd::seq_lib::to_multiset_insert(rest, 0, s[0]);
        assert forall|y: T| #[trigger] stable_sorted(s).contains(y) <==> s.contains(y) by {
            assert(insert_sorted(stable_sorted(rest), s[0]).contains(y) <==> y == s[0]
                || stable_sorted(rest).contains(y));
            if s.contains(y) {
                let k = choose|k: int| 0 <= k < s.len() && s[k] == y;
                if k > 0 {
                    assert(rest[k - 1] == y);
                }
            }
            if rest.contains(y) {
                let k = choose|k: int| 0 <= k < rest.len() && rest[k] == y;
                assert(s[k + 1] == y);
            }
            assert(s[0] == y ==> s.contains(y));
        }
    }
}

/// The values with the key of `x`, in order.
pub open spec fn with_key<T: SortKey>(s: Seq<T>, x: T) -> Seq<T>
    decreases s.len(),
{
    if s.len() == 0 {
        s
    } else if T::not_above(s[0], x) && T::not_above(x, s[0]) {
        seq![s[0]] + with_key(s.skip(1), x)
    } else {
        with_key(s.skip(1), x)
    }
}

proof fn lemma_insert_keeps_order<T: SortKey>(s: Seq<T>, v: T, x: T)
    ensures
        with_key(insert_sorted(s, v), x) == (if T::not_above(v, x) && T::not_above(x, v) {
            seq![v] + with_key(s, x)
        } else {
            with_key(s, x)
        }),
    decreases s.len(),
{
    let r = insert_sorted(s, v);
    if s.len() == 0 || T::not_above(v, s[0]) {
        assert(r.skip(1) =~= s);
    } else {
        lemma_insert_keeps_order(s.skip(1), v, x);
        assert(r.skip(1) =~= insert_sorted(s.skip(1), v));
        assert(r[0] == s[0]);
        if T::not_above(v, x) && T::not_above(x, v) && T::not_above(s[0], x) && T::not_above(
            x,
            s[0],
        ) {
            T::transitive(v, x, s[0]);
        }
    }
}

/// Values with equal keys keep their order when they are sorted.
pub proof fn law_sorting_is_stable<T: SortKey>(s: Seq<T>, x: T)
    ensures
        with_key(stable_sorted(s), x) == with_key(s, x),
    decreases s.len(),
{
    if s.len() > 0 {
        law_sorting_is_stable(s.skip(1), x);
        lemma_insert_keeps_order(stable_sorted(s.skip(1)), s[0], x);
    }
}

/// Sorting values that are in order changes nothing.
pub proof fn lemma_sorted_unchanged<T: SortKey>(s: Seq<T>)
    requires
        is_sorted(s),
    ensures
        stable_sorted(s) == s,
    decreases s.len(),
{
    if s.len() > 0 {
        let rest = s.skip(1);
        assert(is_sorted(rest)) by {
            assert forall|i: int, j: int| 0 <= i < j < rest.len() implies T::not_above(
                #[trigger] rest[i],
                #[trigger] rest[j],
            ) by {
                assert(T::not_above(s[i + 1], s[j + 1]));
            }
        }
        lemma_sorted_unchanged(rest);
        if rest.len() > 0 {
            assert(T::not_above(s[0], s[1]));
        }
        assert(stable_sorted(s) =~= s);
    }
}

proof fn lemma_insert_at<T: SortKey>(s: Seq<T>, x: T, p: int)
    requires
        0 <= p <= s.len(),
        forall|j: int| 0 <= j < p ==> !T::not_above(x, #[trigger] s[j]),
        p < s.len() ==> T::not_above(x, s[p]),
    ensures
        insert_sorted(s, x) == s.insert(p, x),
    decreases p,
{
    if p == 0 {
        assert(seq![x] + s =~= s.insert(0, x));
    } else {
        assert(!T::not_above(x, s[0]));
        lemma_insert_at(s.skip(1), x, p - 1);
        assert(seq![s[0]] + s.skip(1).insert(p - 1, x) =~= s.insert(p, x));
    }
}

/// Sorts by key; values with equal keys keep their order.
pub fn sort_stable<T: SortKey>(values: Vec<T>) -> (r: Vec<T>)
    ensures
        r@ == stable_sorted(values@),
{
    let mut input = values;
    let mut out: Vec<T> = Vec::new();
    let ghost whole = input@;
    assert(whole.skip(whole.len() as int) =~= Seq::<T>::empty());
    while input.len() > 0
        invariant
            input@.len() <= whole.len(),
            input@ == whole.take(input@.len() as int),
            out@ == stable_sorted(whole.skip(input@.len() as int)),
        decreases input.len(),
    {
        let ghost n = input@.len() as int;
        match input.pop() {
            Some(x) => {
                let mut p: usize = 0;
                while p < out.len() && !T::key_not_above(&x, &out[p])
                    invariant
                        p <= out.len(),
                        forall|j: int| 0 <= j < p ==> !T::not_above(x, #[trigger] out@[j]),
                    decreases out.len() - p,
                {
                    p = p + 1;
                }
                proof {
                    lemma_insert_at(out@, x, p as int);
                    assert(whole.skip(n - 1).skip(1) =~= whole.skip(n));
                    assert(whole.skip(n - 1)[0] == x);
                }
                out.insert(p, x);
                assert(input@ =~= whole.take(n - 1));
            },
            None => {
                assert(false);
            },
        }
    }
    assert(whole.skip(0) =~= whole);
    out
}

} // verus!
