//! Ordered insertion and stable sorting of sequences, parameterised
//! over the order, shared by the task and project collections.

use vstd::prelude::*;

verus! {

/// Inserts `x` into `s` after every element that compares at-or-below
/// it: the position a stable sort would give a newly appended element.
pub open spec fn insert_ordered<T>(s: Seq<T>, x: T, le: spec_fn(T, T) -> bool) -> Seq<T>
    decreases s.len(),
{
    if s.len() > 0 && le(s[0], x) {
        seq![s[0]] + insert_ordered(s.skip(1), x, le)
    } else {
        seq![x] + s
    }
}

/// Stable insertion sort: elements are taken left to right, each going
/// after the ones already placed that compare at-or-below it, so equal
/// elements keep their relative order.
pub open spec fn sort_ordered<T>(s: Seq<T>, le: spec_fn(T, T) -> bool) -> Seq<T>
    decreases s.len(),
{
    if s.len() == 0 {
        s
    } else {
        insert_ordered(sort_ordered(s.drop_last(), le), s.last(), le)
    }
}

/// `s` is sorted under `le`.
pub open spec fn ordered<T>(s: Seq<T>, le: spec_fn(T, T) -> bool) -> bool {
    forall|i: int, j: int| 0 <= i < j < s.len() ==> le(s[i], s[j])
}

/// Every element of an ordered insertion is the inserted element or
/// one of the original sequence.
pub proof fn lemma_insert_ordered_elems<T>(s: Seq<T>, x: T, le: spec_fn(T, T) -> bool)
    ensures
        forall|i: int|
            0 <= i < insert_ordered(s, x, le).len() ==> insert_ordered(s, x, le)[i] == x
                || exists|j: int| 0 <= j < s.len() && s[j] == #[trigger] insert_ordered(s, x, le)[i],
    decreases s.len(),
{
    let r = insert_ordered(s, x, le);
    if s.len() > 0 && le(s[0], x) {
        lemma_insert_ordered_elems(s.skip(1), x, le);
        assert forall|i: int| 0 <= i < r.len() implies r[i] == x || exists|j: int|
            0 <= j < s.len() && s[j] == #[trigger] r[i] by {
            if i == 0 {
                assert(s[0] == r[0]);
            } else {
                let r1 = insert_ordered(s.skip(1), x, le);
                assert(r[i] == r1[i - 1]);
                if r1[i - 1] != x {
                    let j = choose|j: int| 0 <= j < s.skip(1).len() && s.skip(1)[j] == r1[i - 1];
                    assert(s[j + 1] == r[i]);
                }
            }
        }
    } else {
        assert forall|i: int| 0 <= i < r.len() implies r[i] == x || exists|j: int|
            0 <= j < s.len() && s[j] == #[trigger] r[i] by {
            if i > 0 {
                assert(s[i - 1] == r[i]);
            }
        }
    }
}

/// Inserting into a sorted sequence keeps it sorted, for any total and
/// transitive order.
pub proof fn lemma_insert_ordered_sorted<T>(s: Seq<T>, x: T, le: spec_fn(T, T) -> bool)
    requires
        ordered(s, le),
        forall|a: T, b: T| #[trigger] le(a, b) || #[trigger] le(b, a),
        forall|a: T, b: T, c: T| #[trigger] le(a, b) && #[trigger] le(b, c) ==> le(a, c),
    ensures
        ordered(insert_ordered(s, x, le), le),
    decreases s.len(),
{
    let r = insert_ordered(s, x, le);
    if s.len() > 0 && le(s[0], x) {
        assert forall|i: int, j: int| 0 <= i < j < s.skip(1).len() implies le(
            #[trigger] s.skip(1)[i],
            #[trigger] s.skip(1)[j],
        ) by {
            assert(s.skip(1)[i] == s[i + 1]);
            assert(s.skip(1)[j] == s[j + 1]);
        }
        assert(ordered(s.skip(1), le));
        lemma_insert_ordered_sorted(s.skip(1), x, le);
        lemma_insert_ordered_elems(s.skip(1), x, le);
        let r1 = insert_ordered(s.skip(1), x, le);
        assert forall|i: int, j: int| 0 <= i < j < r.len() implies le(r[i], r[j]) by {
            if i == 0 {
                assert(r[0] == s[0]);
                assert(r[j] == r1[j - 1]);
                if r1[j - 1] == x {
                    assert(le(s[0], x));
                } else {
                    let k = choose|k: int|
                        0 <= k < s.skip(1).len() && s.skip(1)[k] == r1[j - 1];
                    assert(le(s[0], s[k + 1]));
                }
            } else {
                assert(r[i] == r1[i - 1]);
                assert(r[j] == r1[j - 1]);
            }
        }
    } else {
        assert forall|i: int, j: int| 0 <= i < j < r.len() implies le(r[i], r[j]) by {
            if i == 0 {
                assert(r[0] == x);
                assert(r[j] == s[j - 1]);
                assert(le(x, s[0]));
                if j > 1 {
                    assert(le(s[0], s[j - 1]));
                }
            } else {
                assert(r[i] == s[i - 1]);
                assert(r[j] == s[j - 1]);
            }
        }
    }
}

/// Every element of the stable sort is an element of its input.
pub proof fn lemma_sort_ordered_elems<T>(s: Seq<T>, le: spec_fn(T, T) -> bool)
    ensures
        forall|i: int|
            0 <= i < sort_ordered(s, le).len() ==> exists|j: int|
                0 <= j < s.len() && s[j] == #[trigger] sort_ordered(s, le)[i],
    decreases s.len(),
{
    if s.len() > 0 {
        lemma_sort_ordered_elems(s.drop_last(), le);
        lemma_insert_ordered_elems(sort_ordered(s.drop_last(), le), s.last(), le);
        let r = sort_ordered(s, le);
        let r1 = sort_ordered(s.drop_last(), le);
        assert forall|i: int| 0 <= i < r.len() implies exists|j: int|
            0 <= j < s.len() && s[j] == #[trigger] r[i] by {
            if r[i] == s.last() {
                assert(s[s.len() - 1] == r[i]);
            } else {
                let k = choose|k: int| 0 <= k < r1.len() && r1[k] == r[i];
                let j = choose|j: int| 0 <= j < s.drop_last().len() && s.drop_last()[j] == r1[k];
                assert(s[j] == r[i]);
            }
        }
    }
}

/// The stable sort sorts: its result is ordered, for any total and
/// transitive order.
pub proof fn lemma_sort_ordered_sorted<T>(s: Seq<T>, le: spec_fn(T, T) -> bool)
    requires
        forall|a: T, b: T| #[trigger] le(a, b) || #[trigger] le(b, a),
        forall|a: T, b: T, c: T| #[trigger] le(a, b) && #[trigger] le(b, c) ==> le(a, c),
    ensures
        ordered(sort_ordered(s, le), le),
    decreases s.len(),
{
    if s.len() > 0 {
        lemma_sort_ordered_sorted(s.drop_last(), le);
        lemma_insert_ordered_sorted(sort_ordered(s.drop_last(), le), s.last(), le);
    }
}

/// An ordered insertion grows the sequence by exactly one element.
pub proof fn lemma_insert_ordered_len<T>(s: Seq<T>, x: T, le: spec_fn(T, T) -> bool)
    ensures
        insert_ordered(s, x, le).len() == s.len() + 1,
    decreases s.len(),
{
    if s.len() > 0 && le(s[0], x) {
        lemma_insert_ordered_len(s.skip(1), x, le);
    }
}

/// An ordered insertion splits the sequence somewhere: the result is
/// the original with `x` spliced in at one position.
pub proof fn lemma_insert_ordered_split<T>(s: Seq<T>, x: T, le: spec_fn(T, T) -> bool)
    ensures
        exists|j: int|
            0 <= j <= s.len() && insert_ordered(s, x, le) == s.subrange(0, j) + seq![x]
                + s.subrange(j, s.len() as int),
    decreases s.len(),
{
    if s.len() > 0 && le(s[0], x) {
        lemma_insert_ordered_split(s.skip(1), x, le);
        let j = choose|j: int|
            0 <= j <= s.skip(1).len() && insert_ordered(s.skip(1), x, le) == s.skip(1).subrange(
                0,
                j,
            ) + seq![x] + s.skip(1).subrange(j, s.skip(1).len() as int);
        assert(s.skip(1).subrange(0, j) =~= s.subrange(1, j + 1));
        assert(s.skip(1).subrange(j, s.skip(1).len() as int) =~= s.subrange(
            j + 1,
            s.len() as int,
        ));
        assert(insert_ordered(s, x, le) =~= s.subrange(0, j + 1) + seq![x] + s.subrange(
            j + 1,
            s.len() as int,
        ));
    } else {
        assert(insert_ordered(s, x, le) =~= s.subrange(0, 0) + seq![x] + s.subrange(
            0,
            s.len() as int,
        ));
    }
}

/// Removing an element from an ordered sequence leaves it ordered.
pub proof fn lemma_ordered_remove<T>(s: Seq<T>, le: spec_fn(T, T) -> bool, i: int)
    requires
        ordered(s, le),
        0 <= i < s.len(),
    ensures
        ordered(s.remove(i), le),
{
    let r = s.remove(i);
    assert forall|k: int, l: int| 0 <= k < l < r.len() implies le(r[k], r[l]) by {
        let k0 = if k < i {
            k
        } else {
            k + 1
        };
        let l0 = if l < i {
            l
        } else {
            l + 1
        };
        assert(r[k] == s[k0]);
        assert(r[l] == s[l0]);
    }
}

/// The stable sort keeps the length of its input.
pub proof fn lemma_sort_ordered_len<T>(s: Seq<T>, le: spec_fn(T, T) -> bool)
    ensures
        sort_ordered(s, le).len() == s.len(),
    decreases s.len(),
{
    if s.len() > 0 {
        lemma_sort_ordered_len(s.drop_last(), le);
        lemma_insert_ordered_len(sort_ordered(s.drop_last(), le), s.last(), le);
    }
}

/// Sorting an already sorted sequence changes nothing: the stable sort
/// is the identity on ordered input.
pub proof fn lemma_sort_ordered_identity<T>(s: Seq<T>, le: spec_fn(T, T) -> bool)
    requires
        ordered(s, le),
    ensures
        sort_ordered(s, le) == s,
    decreases s.len(),
{
    if s.len() > 0 {
        assert forall|i: int, j: int| 0 <= i < j < s.drop_last().len() implies le(
            #[trigger] s.drop_last()[i],
            #[trigger] s.drop_last()[j],
        ) by {
            assert(s.drop_last()[i] == s[i]);
            assert(s.drop_last()[j] == s[j]);
        }
        assert(ordered(s.drop_last(), le));
        lemma_sort_ordered_identity(s.drop_last(), le);
        assert forall|k: int| 0 <= k < s.drop_last().len() implies le(
            #[trigger] s.drop_last()[k],
            s.last(),
        ) by {
            assert(s.drop_last()[k] == s[k]);
        }
        lemma_insert_ordered_at(s.drop_last(), s.last(), le, s.len() - 1);
        assert(sort_ordered(s, le) =~= s);
    }
}

/// Where the ordered insertion lands: splitting `s` at the first
/// element that does not compare at-or-below `x` puts `x` in between.
pub proof fn lemma_insert_ordered_at<T>(s: Seq<T>, x: T, le: spec_fn(T, T) -> bool, j: int)
    requires
        0 <= j <= s.len(),
        forall|k: int| 0 <= k < j ==> le(#[trigger] s[k], x),
        j < s.len() ==> !le(s[j], x),
    ensures
        insert_ordered(s, x, le) == s.subrange(0, j) + seq![x] + s.subrange(j, s.len() as int),
    decreases j,
{
    if j == 0 {
        assert(insert_ordered(s, x, le) =~= s.subrange(0, 0) + seq![x] + s.subrange(
            0,
            s.len() as int,
        ));
    } else {
        assert(le(s[0], x));
        lemma_insert_ordered_at(s.skip(1), x, le, j - 1);
        assert(insert_ordered(s, x, le) =~= s.subrange(0, j) + seq![x] + s.subrange(
            j,
            s.len() as int,
        ));
    }
}

} // verus!
