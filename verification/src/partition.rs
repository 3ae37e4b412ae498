use vstd::prelude::*;

use std::cmp::Ordering;
use vstd::std_specs::cmp::PartialOrdSpec;

verus! {

/// Swaps two elements of a slice.
#[verifier::external_body]
fn slice_swap<T>(slice: &mut [T], a: usize, b: usize)
    requires
        a < old(slice)@.len(),
        b < old(slice)@.len(),
    ensures
        final(slice)@ == old(slice)@.update(a as int, old(slice)@[b as int]).update(b as int, old(slice)@[a as int]),
{
    slice.swap(a, b)
}

/// Swapping two elements keeps the same elements.
proof fn lemma_swap_keeps_elements<T>(s: Seq<T>, a: int, b: int)
    requires
        0 <= a < s.len(),
        0 <= b < s.len(),
    ensures
        s.update(a, s[b]).update(b, s[a]).to_multiset() == s.to_multiset(),
{
    broadcast use vstd::multiset::group_multiset_axioms;

    let s1 = s.update(a, s[b]);
    vstd::seq_lib::to_multiset_update(s, a, s[b]);
    vstd::seq_lib::to_multiset_update(s1, b, s[a]);
    if a == b {
        assert(s.update(a, s[b]).update(b, s[a]) =~= s);
    } else {
        assert(s1[b] == s[b]);
        let m = s.to_multiset();
        vstd::seq_lib::to_multiset_contains(s, s[a]);
        assert(s.contains(s[a]));
        assert(m.count(s[a]) > 0);
        let m1 = m.insert(s[b]).remove(s[a]);
        let m2 = m1.insert(s[a]).remove(s[b]);
        assert(m1.insert(s[a]).count(s[b]) > 0);
        assert forall|e: T| m2.count(e) == m.count(e) by {
        }
        assert(m2 =~= m);
    }
}

/// `a <= b` in the order that `PartialOrd` gives the keys.
pub open spec fn key_le<K: PartialOrd>(a: K, b: K) -> bool {
    a.partial_cmp_spec(&b) matches Some(Ordering::Less | Ordering::Equal)
}

/// The keys' `PartialOrd` order is the one that vstd states for them.
pub open spec fn keys_ordered<K: PartialOrd>() -> bool {
    K::obeys_partial_cmp_spec()
}

/// The selector gives `x` a key of at most `split_on`.
pub open spec fn key_at_most<T, K: PartialOrd, F: Fn(&T) -> K>(selector: F, x: T, split_on: K) -> bool {
    exists|k: K| call_ensures(selector, (&x,), k) && key_le(k, split_on)
}

/// The selector gives `x` a key that is not at most `split_on`.
pub open spec fn key_above<T, K: PartialOrd, F: Fn(&T) -> K>(selector: F, x: T, split_on: K) -> bool {
    exists|k: K| call_ensures(selector, (&x,), k) && !key_le(k, split_on)
}

/// The selector gives each element one key.
pub open spec fn selector_deterministic<T, K, F: Fn(&T) -> K>(selector: F) -> bool {
    forall|x: &T, k1: K, k2: K|
        #![trigger call_ensures(selector, (x,), k1), call_ensures(selector, (x,), k2)]
        call_ensures(selector, (x,), k1) && call_ensures(selector, (x,), k2) ==> k1 == k2
}

/// The selector was asked for the key of `x` and gave one.
pub open spec fn key_given<T, K, F: Fn(&T) -> K>(selector: F, x: T) -> bool {
    exists|k: K| call_ensures(selector, (&x,), k)
}

/// The elements to which the selector gives a key of at most `split_on`.
pub open spec fn at_most_split<T, K: PartialOrd, F: Fn(&T) -> K>(selector: F, split_on: K) -> spec_fn(T) -> bool {
    |x: T| key_at_most(selector, x, split_on)
}

/// The two sides that a scan from both ends of `s` gives, where `cur` is the
/// element being examined and `s[lo..=hi]` are those not yet examined: an
/// element that `keep` holds of goes to the end of the left side and the next
/// is taken from the front; any other goes to the start of the right side and
/// the next is taken from the back; the last element, once no other is left,
/// goes to the end of the left side or to the start of the right side alike.
pub open spec fn scan_split<T>(s: Seq<T>, lo: int, hi: int, cur: T, keep: spec_fn(T) -> bool) -> (Seq<T>, Seq<T>)
    decreases hi + 1 - lo,
{
    if lo > hi {
        if keep(cur) {
            (seq![cur], Seq::empty())
        } else {
            (Seq::empty(), seq![cur])
        }
    } else if keep(cur) {
        let (l, r) = scan_split(s, lo + 1, hi, s[lo], keep);
        (seq![cur] + l, r)
    } else {
        let (l, r) = scan_split(s, lo, hi - 1, s[hi], keep);
        (l, r.push(cur))
    }
}

/// A scan reads only the elements not yet examined.
proof fn lemma_scan_reads_range<T>(s1: Seq<T>, s2: Seq<T>, lo: int, hi: int, cur: T, keep: spec_fn(T) -> bool)
    requires
        forall|k: int| lo <= k <= hi ==> s1[k] == s2[k],
    ensures
        scan_split(s1, lo, hi, cur, keep) == scan_split(s2, lo, hi, cur, keep),
    decreases hi + 1 - lo,
{
    if lo <= hi {
        if keep(cur) {
            lemma_scan_reads_range(s1, s2, lo + 1, hi, s1[lo], keep);
        } else {
            lemma_scan_reads_range(s1, s2, lo, hi - 1, s1[hi], keep);
        }
    }
}

/// Partitions the given slice by moving every element whose key is above
/// `split_on` to the end; elements whose key is at most `split_on` stay in
/// front. This partitioning operation is unstable.
///
/// Returns the left and right sub-partitions, which hold the elements of the
/// slice, and asks the selector once for the key of every element. Where the
/// keys' order is the one that `PartialOrd` states, every element of the left
/// one selects a key of at most `split_on`, and every element of the right one
/// a key that is not at most `split_on`. Where moreover the selector gives each
/// element one key, the sides are those of `scan_split`: the slice is examined
/// from the front, and each element that goes right is swapped with the last
/// one not yet examined, which is examined next.
pub fn partition_by_key<'a, T, K: PartialOrd, F: Fn(&T) -> K>(slice: &'a mut [T], split_on: K, selector: F) -> (parts: (
    &'a mut [T],
    &'a mut [T],
))
    requires
        old(slice)@.len() > 0,
        forall|x: &T| #[trigger] call_requires(selector, (x,)),
    ensures
        parts.0@.len() + parts.1@.len() == old(slice)@.len(),
        (parts.0@ + parts.1@).to_multiset() == old(slice)@.to_multiset(),
        forall|p: int| 0 <= p < old(slice)@.len() ==> key_given(selector, #[trigger] old(slice)@[p]),
        keys_ordered::<K>() ==> forall|k: int|
            0 <= k < parts.0@.len() ==> key_at_most(selector, #[trigger] parts.0@[k], split_on),
        keys_ordered::<K>() ==> forall|k: int|
            0 <= k < parts.1@.len() ==> key_above(selector, #[trigger] parts.1@[k], split_on),
        keys_ordered::<K>() && selector_deterministic(selector) ==> (parts.0@, parts.1@) == scan_split(
            old(slice)@,
            1,
            old(slice)@.len() - 1,
            old(slice)@[0],
            at_most_split(selector, split_on),
        ),
        final(slice)@ == final(parts.0)@ + final(parts.1)@,
{
    let len = slice.len();
    let ghost original = slice@;
    let ghost keep = at_most_split(selector, split_on);
    let mut i: usize = 0;
    let mut j: usize = len - 1;
    assert(original.take(0) + scan_split(original, 1, len - 1, original[0], keep).0 =~= scan_split(
        original,
        1,
        len - 1,
        original[0],
        keep,
    ).0);
    assert(scan_split(original, 1, len - 1, original[0], keep).1 + original.skip(len as int) =~= scan_split(
        original,
        1,
        len - 1,
        original[0],
        keep,
    ).1);
    while i < j
        invariant
            slice@.len() == len,
            len > 0,
            i <= j < len,
            slice@.to_multiset() == original.to_multiset(),
            forall|x: &T| #[trigger] call_requires(selector, (x,)),
            forall|k: int| 0 <= k < i ==> key_given(selector, #[trigger] slice@[k]),
            forall|k: int| j < k < len ==> key_given(selector, #[trigger] slice@[k]),
            keys_ordered::<K>() ==> forall|k: int|
                0 <= k < i ==> key_at_most(selector, #[trigger] slice@[k], split_on),
            keys_ordered::<K>() ==> forall|k: int|
                j < k < len ==> key_above(selector, #[trigger] slice@[k], split_on),
            keep == at_most_split(selector, split_on),
            len == original.len(),
            keys_ordered::<K>() && selector_deterministic(selector) ==> {
                let (l, r) = scan_split(slice@, i + 1, j as int, slice@[i as int], keep);
                scan_split(original, 1, len - 1, original[0], keep) == (slice@.take(i as int) + l, r
                    + slice@.skip(j + 1))
            },
        decreases j - i,
    {
        let v = selector(&slice[i]);
        let left = v <= split_on;
        assert(call_ensures(selector, (&slice@[i as int],), v));
        assert(key_given(selector, slice@[i as int]));
        assert(keys_ordered::<K>() ==> (left == key_le(v, split_on)));
        proof {
            lemma_key_decision(selector, slice@[i as int], split_on, v, left);
        }
        if left {
            // Count into left partition
            proof {
                if keys_ordered::<K>() && selector_deterministic(selector) {
                    let s = slice@;
                    let (l2, r2) = scan_split(s, i + 2, j as int, s[i + 1], keep);
                    assert(scan_split(s, i + 1, j as int, s[i as int], keep) == (seq![s[i as int]] + l2, r2));
                    assert(s.take(i as int) + (seq![s[i as int]] + l2) =~= s.take(i + 1) + l2);
                }
            }
            i += 1;
        } else {
            // Swap into right partition
            let ghost before = slice@;
            slice_swap(slice, i, j);
            proof {
                lemma_swap_keeps_elements(before, i as int, j as int);
                assert(slice@[j as int] == before[i as int]);
                assert forall|k: int| 0 <= k < i implies key_given(selector, #[trigger] slice@[k]) by {
                    assert(slice@[k] == before[k]);
                }
                assert forall|k: int| j <= k < len implies key_given(selector, #[trigger] slice@[k]) by {
                    if k > j {
                        assert(slice@[k] == before[k]);
                    }
                }
                if keys_ordered::<K>() && selector_deterministic(selector) {
                    let s2 = slice@;
                    let (l2, r2) = scan_split(before, i + 1, j - 1, before[j as int], keep);
                    assert(scan_split(before, i + 1, j as int, before[i as int], keep) == (l2, r2.push(
                        before[i as int],
                    )));
                    lemma_scan_reads_range(s2, before, i + 1, j - 1, before[j as int], keep);
                    assert(s2[i as int] == before[j as int]);
                    assert(s2.take(i as int) =~= before.take(i as int));
                    assert(r2.push(before[i as int]) + before.skip(j + 1) =~= r2 + s2.skip(j as int));
                }
                if keys_ordered::<K>() {
                    assert forall|k: int| 0 <= k < i implies key_at_most(selector, #[trigger] slice@[k], split_on) by {
                        assert(slice@[k] == before[k]);
                    }
                    assert forall|k: int| j <= k < len implies key_above(selector, #[trigger] slice@[k], split_on) by {
                        if k > j {
                            assert(slice@[k] == before[k]);
                        }
                    }
                }
            }
            j -= 1;
        }
    }
    // The last element left: it goes to whichever side its key belongs to.
    let v = selector(&slice[i]);
    let last_left = v <= split_on;
    assert(call_ensures(selector, (&slice@[i as int],), v));
    assert(key_given(selector, slice@[i as int]));
    assert(keys_ordered::<K>() ==> (last_left == key_le(v, split_on)));
    proof {
        lemma_key_decision(selector, slice@[i as int], split_on, v, last_left);
    }
    let mid = if last_left {
        i + 1
    } else {
        i
    };
    let ghost whole = slice@;
    let parts = slice.split_at_mut(mid);
    proof {
        assert(parts.0@ + parts.1@ =~= whole);
        assert forall|p: int| 0 <= p < original.len() implies key_given(selector, #[trigger] original[p]) by {
            lemma_found_in(original, whole, p);
        }
        if keys_ordered::<K>() {
            assert forall|k: int| 0 <= k < parts.0@.len() implies key_at_most(
                selector,
                #[trigger] parts.0@[k],
                split_on,
            ) by {
                assert(parts.0@[k] == whole[k]);
            }
            assert forall|k: int| 0 <= k < parts.1@.len() implies key_above(
                selector,
                #[trigger] parts.1@[k],
                split_on,
            ) by {
                assert(parts.1@[k] == whole[k + mid]);
            }
        }
        if keys_ordered::<K>() && selector_deterministic(selector) {
            let (l, r) = scan_split(whole, i + 1, i as int, whole[i as int], keep);
            if last_left {
                assert(l =~= seq![whole[i as int]] && r =~= Seq::<T>::empty());
                assert(whole.take(i as int) + l =~= parts.0@);
                assert(r + whole.skip(i + 1) =~= parts.1@);
            } else {
                assert(l =~= Seq::<T>::empty() && r =~= seq![whole[i as int]]);
                assert(whole.take(i as int) + l =~= parts.0@);
                assert(r + whole.skip(i + 1) =~= parts.1@);
            }
        }
    }
    parts
}

/// What the selector gave for `x` decides its side: at most `split_on` puts
/// it left, and, where each element has one key, `keep` agrees.
proof fn lemma_key_decision<T, K: PartialOrd, F: Fn(&T) -> K>(selector: F, x: T, split_on: K, v: K, left: bool)
    requires
        call_ensures(selector, (&x,), v),
        keys_ordered::<K>() ==> (left == key_le(v, split_on)),
    ensures
        keys_ordered::<K>() ==> (left ==> key_at_most(selector, x, split_on)),
        keys_ordered::<K>() ==> (!left ==> key_above(selector, x, split_on)),
        keys_ordered::<K>() && selector_deterministic(selector) ==> left == at_most_split(selector, split_on)(x),
{
    if keys_ordered::<K>() && selector_deterministic(selector) {
        if key_at_most(selector, x, split_on) {
            let k = choose|k: K| call_ensures(selector, (&x,), k) && key_le(k, split_on);
            assert(k == v);
        }
    }
}

/// An element of `a` is found in any `b` with the same elements, and every
/// element of `b` had its key taken, so this one did.
proof fn lemma_found_in<T>(a: Seq<T>, b: Seq<T>, p: int)
    requires
        0 <= p < a.len(),
        a.to_multiset() == b.to_multiset(),
    ensures
        b.contains(a[p]),
{
    broadcast use vstd::seq_lib::group_to_multiset_ensures;

    assert(a.contains(a[p]));
    assert(a.to_multiset().count(a[p]) > 0);
}

} // verus!
