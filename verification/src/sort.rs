//! Stable sorting by insertion.

use crate::chars::chars_of;
use vstd::prelude::*;

verus! {

/// The place behind the last element that `x` does not come before.
pub open spec fn slot<T>(s: Seq<T>, x: T, before: spec_fn(T, T) -> bool) -> int
    decreases s.len(),
{
    if s.len() > 0 && before(x, s.last()) {
        slot(s.drop_last(), x, before)
    } else {
        s.len() as int
    }
}

/// The elements in order, ties as they stood.
pub open spec fn arranged<T>(s: Seq<T>, before: spec_fn(T, T) -> bool) -> Seq<T>
    decreases s.len(),
{
    if s.len() == 0 {
        s
    } else {
        let a = arranged(s.drop_last(), before);
        a.insert(slot(a, s.last(), before), s.last())
    }
}

/// No element comes before one that stands in front of it.
pub open spec fn in_order<T>(s: Seq<T>, before: spec_fn(T, T) -> bool) -> bool {
    forall|i: int, j: int| 0 <= i < j < s.len() ==> !before(#[trigger] s[j], #[trigger] s[i])
}

/// A strict weak order among the elements of a kind.
pub open spec fn strict_weak<T>(kind: spec_fn(T) -> bool, before: spec_fn(T, T) -> bool) -> bool {
    &&& forall|a: T, b: T| kind(a) && kind(b) && #[trigger] before(a, b) ==> !before(b, a)
    &&& forall|a: T, b: T, c: T|
        kind(a) && kind(b) && kind(c) && !(#[trigger] before(a, b)) && !(#[trigger] before(b, c)) ==> !before(a, c)
}

/// Whether all elements are of a kind.
pub open spec fn all_of<T>(s: Seq<T>, kind: spec_fn(T) -> bool) -> bool {
    forall|i: int| 0 <= i < s.len() ==> kind(#[trigger] s[i])
}

pub proof fn lemma_slot_range<T>(s: Seq<T>, x: T, before: spec_fn(T, T) -> bool)
    ensures
        0 <= slot(s, x, before) <= s.len(),
        forall|i: int| slot(s, x, before) <= i < s.len() ==> before(x, #[trigger] s[i]),
        slot(s, x, before) > 0 ==> !before(x, s[slot(s, x, before) - 1]),
    decreases s.len(),
{
    if s.len() > 0 && before(x, s.last()) {
        lemma_slot_range(s.drop_last(), x, before);
        let k = slot(s, x, before);
        assert forall|i: int| k <= i < s.len() implies before(x, #[trigger] s[i]) by {
            if i < s.len() - 1 {
                assert(s.drop_last()[i] == s[i]);
            }
        }
        if k > 0 {
            assert(s.drop_last()[k - 1] == s[k - 1]);
        }
    }
}

/// Each element of a sorted sequence is one of the sequence.
pub proof fn lemma_arranged_keeps<T>(s: Seq<T>, before: spec_fn(T, T) -> bool, x: T)
    ensures
        arranged(s, before).contains(x) == s.contains(x),
{
    lemma_arranged_permutes(s, before);
    vstd::seq_lib::to_multiset_contains(s, x);
    vstd::seq_lib::to_multiset_contains(arranged(s, before), x);
}

/// Sorting keeps every element, as often as it occurs.
pub proof fn lemma_arranged_permutes<T>(s: Seq<T>, before: spec_fn(T, T) -> bool)
    ensures
        arranged(s, before).len() == s.len(),
        arranged(s, before).to_multiset() == s.to_multiset(),
    decreases s.len(),
{
    if s.len() > 0 {
        let front = s.drop_last();
        let a = arranged(front, before);
        lemma_arranged_permutes(front, before);
        lemma_slot_range(a, s.last(), before);
        let k = slot(a, s.last(), before);
        vstd::seq_lib::to_multiset_insert(a, k, s.last());
        vstd::seq_lib::to_multiset_build(front, s.last());
        assert(s =~= front.push(s.last()));
    }
}

/// Sorting by a strict weak order leaves no element in front of one that
/// comes before it.
pub proof fn lemma_arranged_in_order<T>(s: Seq<T>, kind: spec_fn(T) -> bool, before: spec_fn(T, T) -> bool)
    requires
        strict_weak(kind, before),
        all_of(s, kind),
    ensures
        in_order(arranged(s, before), before),
        all_of(arranged(s, before), kind),
    decreases s.len(),
{
    if s.len() > 0 {
        let a = arranged(s.drop_last(), before);
        let x = s.last();
        let k = slot(a, x, before);
        assert(all_of(s.drop_last(), kind)) by {
            assert forall|i: int| 0 <= i < s.len() - 1 implies kind(#[trigger] s.drop_last()[i]) by {
                assert(s.drop_last()[i] == s[i]);
            }
        }
        lemma_arranged_in_order(s.drop_last(), kind, before);
        lemma_slot_range(a, x, before);
        assert(kind(s[s.len() - 1]));
        let out = a.insert(k, x);
        assert forall|i: int| 0 <= i < out.len() implies kind(#[trigger] out[i]) by {
            if i < k {
                assert(out[i] == a[i]);
            } else if i > k {
                assert(out[i] == a[i - 1]);
            }
        }
        assert forall|i: int, j: int| 0 <= i < j < out.len() implies !before(#[trigger] out[j], #[trigger] out[i]) by {
            if j < k {
                assert(out[i] == a[i] && out[j] == a[j]);
            } else if i > k {
                assert(out[i] == a[i - 1] && out[j] == a[j - 1]);
            } else if j == k {
                assert(out[i] == a[i] && out[j] == x);
                if i < k - 1 {
                    assert(!before(x, a[k - 1]) && !before(a[k - 1], a[i]));
                }
            } else if i == k {
                assert(out[i] == x && out[j] == a[j - 1]);
                assert(before(x, a[j - 1]));
            } else {
                assert(out[i] == a[i] && out[j] == a[j - 1]);
            }
        }
    }
}

/// What passes a filter.
pub proof fn lemma_filtered<T>(s: Seq<T>, p: spec_fn(T) -> bool, x: T)
    ensures
        s.filter(p).contains(x) == (s.contains(x) && p(x)),
{
    if s.filter(p).contains(x) {
        s.lemma_filter_contains_rev(p, x);
        let i = choose|i: int| 0 <= i < s.filter(p).len() && s.filter(p)[i] == x;
        s.lemma_filter_pred(p, i);
    }
    if s.contains(x) && p(x) {
        let i = choose|i: int| 0 <= i < s.len() && s[i] == x;
        s.lemma_filter_contains(p, i);
    }
}

/// What passes a filter is of the kind that all elements are of.
pub proof fn lemma_filtered_kind<T>(s: Seq<T>, p: spec_fn(T) -> bool, kind: spec_fn(T) -> bool)
    requires
        all_of(s, kind),
    ensures
        all_of(s.filter(p), kind),
{
    let out = s.filter(p);
    assert forall|i: int| 0 <= i < out.len() implies kind(#[trigger] out[i]) by {
        assert(out.contains(out[i]));
        lemma_filtered(s, p, out[i]);
        let k = choose|k: int| 0 <= k < s.len() && s[k] == out[i];
        assert(kind(s[k]));
    }
}

proof fn lemma_filter_none<T>(s: Seq<T>, p: spec_fn(T) -> bool)
    requires
        forall|i: int| 0 <= i < s.len() ==> !p(#[trigger] s[i]),
    ensures
        s.filter(p) == Seq::<T>::empty(),
    decreases s.len(),
{
    reveal(Seq::filter);
    if s.len() > 0 {
        assert forall|i: int| 0 <= i < s.drop_last().len() implies !p(#[trigger] s.drop_last()[i]) by {
            assert(s.drop_last()[i] == s[i]);
        }
        lemma_filter_none(s.drop_last(), p);
        assert(!p(s[s.len() - 1]));
    }
}

/// Sorting is stable: elements none of which comes before another stay in the
/// order in which they stood.
pub proof fn lemma_arranged_stable<T>(s: Seq<T>, before: spec_fn(T, T) -> bool, tied: spec_fn(T) -> bool)
    requires
        forall|a: T, b: T| tied(a) && tied(b) ==> !(#[trigger] before(a, b)),
    ensures
        arranged(s, before).filter(tied) == s.filter(tied),
    decreases s.len(),
{
    reveal(Seq::filter);
    if s.len() > 0 {
        let a = arranged(s.drop_last(), before);
        let x = s.last();
        let k = slot(a, x, before);
        lemma_arranged_stable(s.drop_last(), before, tied);
        lemma_slot_range(a, x, before);
        let head = a.take(k);
        let tail = a.skip(k);
        Seq::filter_distributes_over_add(head, tail, tied);
        assert(a =~= head + tail);
        let one = seq![x];
        Seq::filter_distributes_over_add(head, one, tied);
        Seq::filter_distributes_over_add(head + one, tail, tied);
        assert(a.insert(k, x) =~= head + one + tail);
        assert(one.drop_last() =~= Seq::<T>::empty());
        assert(Seq::<T>::empty().filter(tied) =~= Seq::<T>::empty());
        if tied(x) {
            assert forall|i: int| 0 <= i < tail.len() implies !tied(#[trigger] tail[i]) by {
                assert(tail[i] == a[k + i]);
                assert(before(x, a[k + i]));
            }
            lemma_filter_none(tail, tied);
            assert(one.filter(tied) =~= one);
            assert((head.filter(tied) + one) + Seq::<T>::empty() =~= (head.filter(tied) + Seq::<T>::empty()).push(x));
        } else {
            assert(one.filter(tied) =~= Seq::<T>::empty());
            assert((head.filter(tied) + Seq::<T>::empty()) + tail.filter(tied) =~= head.filter(tied) + tail.filter(
                tied,
            ));
        }
    } else {
        assert(arranged(s, before) == s);
    }
}

/// Whether a text comes before another, character by character.
pub open spec fn text_before(a: Seq<char>, b: Seq<char>) -> bool
    decreases b.len(),
{
    if b.len() == 0 {
        false
    } else if a.len() == 0 {
        true
    } else {
        a[0] < b[0] || (a[0] == b[0] && text_before(a.skip(1), b.skip(1)))
    }
}

proof fn lemma_text_asymmetric(a: Seq<char>, b: Seq<char>)
    requires
        text_before(a, b),
    ensures
        !text_before(b, a),
    decreases b.len(),
{
    if a.len() > 0 && a[0] == b[0] {
        lemma_text_asymmetric(a.skip(1), b.skip(1));
    }
}

proof fn lemma_text_negative(a: Seq<char>, b: Seq<char>, c: Seq<char>)
    requires
        !text_before(a, b),
        !text_before(b, c),
    ensures
        !text_before(a, c),
    decreases a.len() + b.len() + c.len(),
{
    if a.len() > 0 && b.len() > 0 && c.len() > 0 && a[0] == b[0] && b[0] == c[0] {
        lemma_text_negative(a.skip(1), b.skip(1), c.skip(1));
    }
}

/// The order of texts is a strict weak order, whatever text is taken of each
/// element.
pub proof fn lemma_text_order<T>(text: spec_fn(T) -> Seq<char>)
    ensures
        strict_weak(|a: T| true, |a: T, b: T| text_before(text(a), text(b))),
{
    let before = |a: T, b: T| text_before(text(a), text(b));
    assert forall|a: T, b: T| #[trigger] before(a, b) implies !before(b, a) by {
        lemma_text_asymmetric(text(a), text(b));
    }
    assert forall|a: T, b: T, c: T| !(#[trigger] before(a, b)) && !(#[trigger] before(b, c)) implies !before(a, c) by {
        lemma_text_negative(text(a), text(b), text(c));
    }
}

/// Whether a text comes before another, character by character.
pub fn comes_before(a: &str, b: &str) -> (r: bool)
    ensures
        r == text_before(a@, b@),
{
    let x: Vec<char> = chars_of(a);
    let y: Vec<char> = chars_of(b);
    let mut i: usize = 0;
    proof {
        assert(x@.skip(0) =~= x@);
        assert(y@.skip(0) =~= y@);
    }
    while i < x.len() && i < y.len() && x[i] == y[i]
        invariant
            i <= x@.len(),
            i <= y@.len(),
            text_before(a@, b@) == text_before(x@.skip(i as int), y@.skip(i as int)),
        decreases x@.len() - i,
    {
        proof {
            assert(x@.skip(i as int).skip(1) =~= x@.skip(i + 1));
            assert(y@.skip(i as int).skip(1) =~= y@.skip(i + 1));
        }
        i = i + 1;
    }
    if i == y.len() {
        false
    } else if i == x.len() {
        true
    } else {
        x[i] < y[i]
    }
}

} // verus!
