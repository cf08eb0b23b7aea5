//! The mathematical model that both lists share: a list is a `Seq<T>`, and
//! each operation is a function from sequences to sequences.
use vstd::prelude::*;
use vstd::std_specs::cmp::PartialEqSpec;

verus! {

/// Whether `a` equals `b` under `T`'s equality.
pub open spec fn elem_eq<T: PartialEq>(a: T, b: T) -> bool {
    a.eq_spec(&b)
}

/// Whether some element of `s` equals `x`.
pub open spec fn has_match<T: PartialEq>(s: Seq<T>, x: T) -> bool {
    exists|i: int| 0 <= i < s.len() && elem_eq(#[trigger] s[i], x)
}

/// The position of the first element of `s` that equals `x`, or `s.len()`
/// when there is none.
pub open spec fn first_match<T: PartialEq>(s: Seq<T>, x: T) -> int
    decreases s.len(),
{
    if s.len() == 0 {
        0
    } else if elem_eq(s[0], x) {
        0
    } else {
        1 + first_match(s.drop_first(), x)
    }
}

/// `s` with `x` placed before position `index`, so that `x` ends up at
/// `index`; `s` itself when `index` is past the end.
pub open spec fn inserted_at<T>(s: Seq<T>, index: int, x: T) -> Seq<T> {
    if 0 <= index <= s.len() {
        s.insert(index, x)
    } else {
        s
    }
}

/// `s` without its first element equal to `x`; `s` itself when none is.
pub open spec fn removed_first<T: PartialEq>(s: Seq<T>, x: T) -> Seq<T> {
    let k = first_match(s, x);
    if k < s.len() {
        s.remove(k)
    } else {
        s
    }
}

/// `s` with its first element equal to `old` replaced by `new`; `s` itself
/// when none is.
pub open spec fn replaced_first<T: PartialEq>(s: Seq<T>, old: T, new: T) -> Seq<T> {
    let k = first_match(s, old);
    if k < s.len() {
        s.update(k, new)
    } else {
        s
    }
}

/// `first_match` is the one position `k` at which `x` matches and before
/// which nothing does (or the length, when nothing matches at all).
pub proof fn lemma_first_match<T: PartialEq>(s: Seq<T>, x: T)
    ensures
        0 <= first_match(s, x) <= s.len(),
        first_match(s, x) < s.len() ==> elem_eq(s[first_match(s, x)], x),
        forall|j: int| 0 <= j < first_match(s, x) ==> !elem_eq(#[trigger] s[j], x),
        has_match(s, x) <==> first_match(s, x) < s.len(),
    decreases s.len(),
{
    if s.len() > 0 && !elem_eq(s[0], x) {
        let t = s.drop_first();
        lemma_first_match(t, x);
        assert forall|j: int| 0 <= j < first_match(s, x) implies !elem_eq(#[trigger] s[j], x) by {
            if j > 0 {
                assert(s[j] == t[j - 1]);
            }
        }
        if has_match(s, x) {
            let i = choose|i: int| 0 <= i < s.len() && elem_eq(#[trigger] s[i], x);
            assert(t[i - 1] == s[i]);
        }
        if first_match(s, x) < s.len() {
            assert(s[first_match(s, x)] == t[first_match(t, x)]);
        }
    }
}

/// A position `k` that matches, with nothing matching before it, is
/// `first_match`; so is the length when nothing matches.
pub proof fn lemma_first_match_at<T: PartialEq>(s: Seq<T>, x: T, k: int)
    requires
        0 <= k <= s.len(),
        k < s.len() ==> elem_eq(s[k], x),
        forall|j: int| 0 <= j < k ==> !elem_eq(#[trigger] s[j], x),
    ensures
        first_match(s, x) == k,
{
    lemma_first_match(s, x);
    let f = first_match(s, x);
    if f < k {
        assert(!elem_eq(s[f], x));
    } else if k < f {
        assert(!elem_eq(s[k], x));
    }
}

/// Deleting by value twice, where the value occurs exactly once: the first
/// deletion removes it, so the second finds nothing and changes nothing.
pub proof fn lemma_delete_twice<T: PartialEq>(s: Seq<T>, x: T)
    requires
        has_match(s, x),
        forall|i: int, j: int|
            0 <= i < s.len() && 0 <= j < s.len() && elem_eq(#[trigger] s[i], x) && elem_eq(
                #[trigger] s[j],
                x,
            ) ==> i == j,
    ensures
        removed_first(s, x).len() + 1 == s.len(),
        !has_match(removed_first(s, x), x),
        removed_first(removed_first(s, x), x) == removed_first(s, x),
{
    lemma_first_match(s, x);
    let k = first_match(s, x);
    let t = removed_first(s, x);
    assert(t == s.remove(k));
    if has_match(t, x) {
        let i = choose|i: int| 0 <= i < t.len() && elem_eq(#[trigger] t[i], x);
        if i < k {
            assert(t[i] == s[i]);
        } else {
            assert(t[i] == s[i + 1]);
        }
    }
    lemma_first_match(t, x);
}

/// Appending `a`, `b` and `c` to an empty list, then reading positions 0, 1
/// and 2, gives back `a`, `b` and `c`; there is nothing at position 3.
pub proof fn lemma_append_then_read<T>(a: T, b: T, c: T)
    ensures
        ({
            let s = Seq::<T>::empty().push(a).push(b).push(c);
            s.len() == 3 && s[0] == a && s[1] == b && s[2] == c
        }),
{
}

/// Inserting at position 1 of `[a, b, c]` puts the new element between `a`
/// and `b`, keeping the order of the others.
pub proof fn lemma_insert_keeps_order<T>(a: T, b: T, c: T, x: T)
    ensures
        inserted_at(seq![a, b, c], 1, x) == seq![a, x, b, c],
{
    assert(inserted_at(seq![a, b, c], 1, x) =~= seq![a, x, b, c]);
}

/// Inserting at position 0 of an empty list gives a list of one element;
/// inserting at position 5 of a list of two leaves it as it was.
pub proof fn lemma_insert_bounds<T>(a: T, b: T, x: T)
    ensures
        inserted_at(Seq::<T>::empty(), 0, x) == seq![x],
        inserted_at(seq![a, b], 5, x) == seq![a, b],
{
    assert(inserted_at(Seq::<T>::empty(), 0, x) =~= seq![x]);
}

} // verus!
