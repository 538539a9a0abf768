use vstd::prelude::*;
use crate::text::{lex_le, lemma_lex_le_refl, lemma_lex_le_total, lemma_lex_le_trans};

verus! {

/// Inserts `x` into `s` just before the first element whose key is not
/// strictly below the key of `x`.
pub open spec fn insert_by_name<T>(key: spec_fn(T) -> Seq<char>, x: T, s: Seq<T>) -> Seq<T>
    decreases s.len(),
{
    if s.len() == 0 {
        seq![x]
    } else if lex_le(key(x), key(s[0])) {
        seq![x] + s
    } else {
        seq![s[0]] + insert_by_name(key, x, s.skip(1))
    }
}

/// Insertion sort by key, keeping duplicates.
pub open spec fn sort_by_name<T>(key: spec_fn(T) -> Seq<char>, s: Seq<T>) -> Seq<T>
    decreases s.len(),
{
    if s.len() == 0 {
        Seq::empty()
    } else {
        insert_by_name(key, s.last(), sort_by_name(key, s.drop_last()))
    }
}

/// Keys appear in non-decreasing order.
pub open spec fn sorted_by_name<T>(key: spec_fn(T) -> Seq<char>, s: Seq<T>) -> bool {
    forall|i: int, j: int| 0 <= i <= j < s.len() ==> lex_le(key(s[i]), key(s[j]))
}

/// The sum of a weight over all elements.
pub open spec fn sum_by<T>(w: spec_fn(T) -> nat, s: Seq<T>) -> nat
    decreases s.len(),
{
    if s.len() == 0 {
        0
    } else {
        sum_by(w, s.drop_last()) + w(s.last())
    }
}

pub proof fn lemma_insert_len<T>(key: spec_fn(T) -> Seq<char>, x: T, s: Seq<T>)
    ensures
        insert_by_name(key, x, s).len() == s.len() + 1,
    decreases s.len(),
{
    if s.len() != 0 && !lex_le(key(x), key(s[0])) {
        lemma_insert_len(key, x, s.skip(1));
    }
}

/// Every element of the insertion result is `x` or comes from `s`.
pub proof fn lemma_insert_elems<T>(key: spec_fn(T) -> Seq<char>, x: T, s: Seq<T>)
    ensures
        forall|i: int|
            0 <= i < insert_by_name(key, x, s).len() ==> (#[trigger] insert_by_name(
                key,
                x,
                s,
            )[i] == x || s.contains(insert_by_name(key, x, s)[i])),
    decreases s.len(),
{
    if s.len() != 0 && !lex_le(key(x), key(s[0])) {
        lemma_insert_elems(key, x, s.skip(1));
        assert forall|i: int| 0 <= i < insert_by_name(key, x, s).len() implies (
        #[trigger] insert_by_name(key, x, s)[i] == x || s.contains(
            insert_by_name(key, x, s)[i],
        )) by {
            let r = insert_by_name(key, x, s);
            if i == 0 {
                assert(s[0] == r[0]);
                assert(s.contains(s[0]));
            } else {
                let ri = insert_by_name(key, x, s.skip(1))[i - 1];
                assert(r[i] == ri);
                if ri != x {
                    let j = choose|j: int| 0 <= j < s.skip(1).len() && s.skip(1)[j] == ri;
                    assert(s[j + 1] == ri);
                }
            }
        }
    }
}

pub proof fn lemma_insert_sorted<T>(key: spec_fn(T) -> Seq<char>, x: T, s: Seq<T>)
    requires
        sorted_by_name(key, s),
    ensures
        sorted_by_name(key, insert_by_name(key, x, s)),
    decreases s.len(),
{
    let r = insert_by_name(key, x, s);
    lemma_insert_len(key, x, s);
    if s.len() == 0 {
        lemma_lex_le_refl(key(x));
    } else if lex_le(key(x), key(s[0])) {
        assert forall|i: int, j: int| 0 <= i <= j < r.len() implies lex_le(
            key(r[i]),
            key(r[j]),
        ) by {
            lemma_lex_le_refl(key(r[i]));
            if i == 0 && j > 0 {
                assert(r[j] == s[j - 1]);
                assert(lex_le(key(s[0]), key(s[j - 1])));
                lemma_lex_le_trans(key(x), key(s[0]), key(s[j - 1]));
            } else if i > 0 && j > i {
                assert(r[i] == s[i - 1]);
                assert(r[j] == s[j - 1]);
            }
        }
    } else {
        assert(sorted_by_name(key, s.skip(1))) by {
            assert(forall|i: int, j: int|
                0 <= i <= j < s.skip(1).len() ==> lex_le(
                    key(#[trigger] s.skip(1)[i]),
                    key(#[trigger] s.skip(1)[j]),
                ));
        }
        lemma_insert_sorted(key, x, s.skip(1));
        lemma_insert_elems(key, x, s.skip(1));
        lemma_lex_le_total(key(x), key(s[0]));
        let rr = insert_by_name(key, x, s.skip(1));
        assert forall|i: int, j: int| 0 <= i <= j < r.len() implies lex_le(
            key(r[i]),
            key(r[j]),
        ) by {
            lemma_lex_le_refl(key(r[i]));
            if i == 0 && j > 0 {
                assert(r[0] == s[0]);
                assert(r[j] == rr[j - 1]);
                if rr[j - 1] == x {
                    assert(lex_le(key(s[0]), key(x)));
                } else {
                    assert(s.skip(1).contains(rr[j - 1]));
                    let k = choose|k: int|
                        0 <= k < s.skip(1).len() && s.skip(1)[k] == rr[j - 1];
                    assert(s[k + 1] == rr[j - 1]);
                    assert(lex_le(key(s[0]), key(s[k + 1])));
                }
            } else if i > 0 && j > i {
                assert(r[i] == rr[i - 1]);
                assert(r[j] == rr[j - 1]);
            }
        }
    }
}

pub proof fn lemma_sort_sorted<T>(key: spec_fn(T) -> Seq<char>, s: Seq<T>)
    ensures
        sorted_by_name(key, sort_by_name(key, s)),
        sort_by_name(key, s).len() == s.len(),
    decreases s.len(),
{
    if s.len() != 0 {
        lemma_sort_sorted(key, s.drop_last());
        lemma_insert_sorted(key, s.last(), sort_by_name(key, s.drop_last()));
        lemma_insert_len(key, s.last(), sort_by_name(key, s.drop_last()));
    }
}

pub proof fn lemma_insert_sum<T>(
    key: spec_fn(T) -> Seq<char>,
    w: spec_fn(T) -> nat,
    x: T,
    s: Seq<T>,
)
    ensures
        sum_by(w, insert_by_name(key, x, s)) == sum_by(w, s) + w(x),
    decreases s.len(),
{
    let r = insert_by_name(key, x, s);
    if s.len() == 0 {
        assert(r =~= seq![x]);
        assert(r.drop_last() =~= Seq::<T>::empty());
        assert(sum_by(w, Seq::<T>::empty()) == 0);
        assert(r.last() == x);
        assert(sum_by(w, r) == sum_by(w, r.drop_last()) + w(r.last()));
    } else if lex_le(key(x), key(s[0])) {
        lemma_sum_prepend(w, x, s);
    } else {
        lemma_insert_sum(key, w, x, s.skip(1));
        lemma_sum_prepend(w, s[0], insert_by_name(key, x, s.skip(1)));
        lemma_sum_prepend(w, s[0], s.skip(1));
        assert(seq![s[0]] + s.skip(1) =~= s);
    }
}

/// Prepending one element adds its weight to the sum.
pub proof fn lemma_sum_prepend<T>(w: spec_fn(T) -> nat, x: T, s: Seq<T>)
    ensures
        sum_by(w, seq![x] + s) == sum_by(w, s) + w(x),
    decreases s.len(),
{
    let r = seq![x] + s;
    if s.len() == 0 {
        assert(r =~= seq![x]);
        assert(r.drop_last() =~= Seq::<T>::empty());
        assert(sum_by(w, Seq::<T>::empty()) == 0);
        assert(r.last() == x);
    } else {
        assert(r.last() == s.last());
        assert(r.drop_last() =~= seq![x] + s.drop_last());
        lemma_sum_prepend(w, x, s.drop_last());
        assert(sum_by(w, r) == sum_by(w, r.drop_last()) + w(r.last()));
    }
}

/// Sorting does not change the sum of a weight over the elements.
pub proof fn lemma_sort_sum<T>(key: spec_fn(T) -> Seq<char>, w: spec_fn(T) -> nat, s: Seq<T>)
    ensures
        sum_by(w, sort_by_name(key, s)) == sum_by(w, s),
    decreases s.len(),
{
    if s.len() != 0 {
        lemma_sort_sum(key, w, s.drop_last());
        lemma_insert_sum(key, w, s.last(), sort_by_name(key, s.drop_last()));
    }
}

/// Every element of the sorted sequence comes from `s`.
pub proof fn lemma_sort_elems<T>(key: spec_fn(T) -> Seq<char>, s: Seq<T>)
    ensures
        forall|i: int|
            0 <= i < sort_by_name(key, s).len() ==> s.contains(
                #[trigger] sort_by_name(key, s)[i],
            ),
    decreases s.len(),
{
    if s.len() != 0 {
        lemma_sort_elems(key, s.drop_last());
        lemma_insert_elems(key, s.last(), sort_by_name(key, s.drop_last()));
        assert forall|i: int| 0 <= i < sort_by_name(key, s).len() implies s.contains(
            #[trigger] sort_by_name(key, s)[i],
        ) by {
            let e = sort_by_name(key, s)[i];
            if e == s.last() {
                assert(s[s.len() - 1] == e);
            } else {
                assert(sort_by_name(key, s.drop_last()).contains(e) || e == s.last());
                if sort_by_name(key, s.drop_last()).contains(e) {
                    let j = choose|j: int|
                        0 <= j < sort_by_name(key, s.drop_last()).len() && sort_by_name(
                            key,
                            s.drop_last(),
                        )[j] == e;
                    assert(s.drop_last().contains(e) || e == s.last());
                    if s.drop_last().contains(e) {
                        let k = choose|k: int|
                            0 <= k < s.drop_last().len() && s.drop_last()[k] == e;
                        assert(s[k] == e);
                    }
                }
            }
        }
    }
}

/// Insertion keeps the old elements and adds the new one.
pub proof fn lemma_insert_contains<T>(key: spec_fn(T) -> Seq<char>, x: T, s: Seq<T>, y: T)
    requires
        y == x || s.contains(y),
    ensures
        insert_by_name(key, x, s).contains(y),
    decreases s.len(),
{
    let r = insert_by_name(key, x, s);
    if s.len() == 0 {
        assert(r[0] == x);
    } else if lex_le(key(x), key(s[0])) {
        if y == x {
            assert(r[0] == x);
        } else {
            let j = choose|j: int| 0 <= j < s.len() && s[j] == y;
            assert(r[j + 1] == y);
        }
    } else {
        if y == x || s.skip(1).contains(y) {
            lemma_insert_contains(key, x, s.skip(1), y);
            let rr = insert_by_name(key, x, s.skip(1));
            let j = choose|j: int| 0 <= j < rr.len() && rr[j] == y;
            assert(r[j + 1] == y);
        } else {
            let j = choose|j: int| 0 <= j < s.len() && s[j] == y;
            assert(j == 0) by {
                if j > 0 {
                    assert(s.skip(1)[j - 1] == y);
                }
            }
            assert(r[0] == y);
        }
    }
}

/// Sorting keeps every element.
pub proof fn lemma_sort_contains<T>(key: spec_fn(T) -> Seq<char>, s: Seq<T>, y: T)
    requires
        s.contains(y),
    ensures
        sort_by_name(key, s).contains(y),
    decreases s.len(),
{
    let j = choose|j: int| 0 <= j < s.len() && s[j] == y;
    if j == s.len() - 1 {
        lemma_insert_contains(key, s.last(), sort_by_name(key, s.drop_last()), y);
    } else {
        assert(s.drop_last()[j] == y);
        lemma_sort_contains(key, s.drop_last(), y);
        lemma_insert_contains(key, s.last(), sort_by_name(key, s.drop_last()), y);
    }
}

/// Every element of a filtered sequence comes from the unfiltered one.
pub proof fn lemma_filter_elems<T>(s: Seq<T>, p: spec_fn(T) -> bool)
    ensures
        forall|i: int| 0 <= i < s.filter(p).len() ==> s.contains(#[trigger] s.filter(p)[i]),
    decreases s.len(),
{
    reveal(Seq::filter);
    if s.len() > 0 {
        lemma_filter_elems(s.drop_last(), p);
        assert forall|i: int| 0 <= i < s.filter(p).len() implies s.contains(
            #[trigger] s.filter(p)[i],
        ) by {
            let r = s.filter(p);
            let sub = s.drop_last().filter(p);
            let x = r[i];
            if p(s.last()) && i == r.len() - 1 {
                assert(x == s.last());
                assert(s[s.len() - 1] == x);
            } else {
                assert(x == sub[i]);
                assert(s.drop_last().contains(x));
                let j = choose|j: int| 0 <= j < s.drop_last().len() && s.drop_last()[j] == x;
                assert(s[j] == x);
            }
        }
    }
}

/// Where the exec code found the insertion point, the spec insertion splits
/// the sequence there.
pub proof fn lemma_insert_at_pos<T>(key: spec_fn(T) -> Seq<char>, x: T, s: Seq<T>, j: int)
    requires
        0 <= j <= s.len(),
        forall|k: int| 0 <= k < j ==> !lex_le(key(x), key(#[trigger] s[k])),
        j < s.len() ==> lex_le(key(x), key(s[j])),
    ensures
        insert_by_name(key, x, s) =~= s.take(j) + seq![x] + s.skip(j),
    decreases j,
{
    if j == 0 {
        assert(s.take(0) =~= Seq::<T>::empty());
        assert(s.skip(0) =~= s);
    } else {
        lemma_insert_at_pos(key, x, s.skip(1), j - 1);
        assert(forall|k: int| 0 <= k < j - 1 ==> s.skip(1)[k] == s[k + 1]);
        assert(s.skip(1).take(j - 1) =~= s.take(j).skip(1));
        assert(s.skip(1).skip(j - 1) =~= s.skip(j));
    }
}

} // verus!
