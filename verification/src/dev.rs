//! Byte-window fingerprint sets and their pairwise comparison, the working
//! parts of the shared-substring search.  The fingerprints come from a
//! per-process keyed hasher, so no contract can pin their values; each
//! function states what holds of every outcome.

use std::collections::HashSet;

use vstd::prelude::*;

use crate::byte_sliceable_trait::ByteSliceable;
use crate::has_len_trait::HasLen;
use crate::hashing::fingerprint64;

verus! {

broadcast use vstd::std_specs::hash::group_hash_axioms;

/// What is known of a fingerprint set computed over the `k`-byte windows of
/// `b`: nothing of its values, but it is finite, it is empty exactly when
/// there are no windows, and it holds at least one and at most one value per
/// window otherwise.
pub open spec fn fingerprint_set_shape(b: Seq<u8>, k: nat, s: Set<u64>) -> bool {
    &&& s.finite()
    &&& ((k == 0 || b.len() < k) ==> s == Set::<u64>::empty())
    &&& (1 <= k <= b.len() ==> 1 <= s.len() <= b.len() - k + 1)
}

/// The set of fingerprints of all `k`-byte windows of the text.  Duplicate
/// windows collapse: the set distinguishes "repeated within one text" from
/// "present at all".
pub fn convert_to_hashset<T: ByteSliceable>(text: &T, k: usize) -> (r: HashSet<u64>)
    ensures
        fingerprint_set_shape(text.byte_view(), k as nat, r@),
{
    let mut hash_set: HashSet<u64> = HashSet::new();
    let bytes = text.as_bytes();
    let n = bytes.len();

    if k == 0 || n < k {
        proof {
            assert(hash_set@ =~= Set::<u64>::empty());
        }
        return hash_set;
    }

    let last_start = n - k;
    let mut i: usize = 0;
    while i <= last_start
        invariant
            bytes@ == text.byte_view(),
            n == bytes@.len(),
            1 <= k <= n,
            last_start == n - k,
            0 <= i <= last_start + 1,
            hash_set@.finite(),
            hash_set@.len() <= i,
            i >= 1 ==> hash_set@.len() >= 1,
        decreases last_start + 1 - i,
    {
        let window = vstd::slice::slice_subrange(bytes, i, i + k);
        let fingerprint = fingerprint64(window);
        let ghost before = hash_set@;
        hash_set.insert(fingerprint);
        proof {
            assert(hash_set@.contains(fingerprint));
            if before.contains(fingerprint) {
                assert(hash_set@ =~= before);
            }
        }
        i = i + 1;
    }
    hash_set
}

/// One fingerprint set per item, in order.
pub fn convert_multiple_to_hashset<T: ByteSliceable>(items: &[T], k: usize) -> (r: Vec<
    HashSet<u64>,
>)
    ensures
        r@.len() == items@.len(),
        forall|i: int|
            0 <= i < items@.len() ==> fingerprint_set_shape(
                #[trigger] items@[i].byte_view(),
                k as nat,
                r@[i]@,
            ),
{
    let mut result: Vec<HashSet<u64>> = Vec::new();
    let n = items.len();
    let mut i: usize = 0;
    while i < n
        invariant
            n == items@.len(),
            0 <= i <= n,
            result@.len() == i,
            forall|j: int|
                0 <= j < i ==> fingerprint_set_shape(
                    #[trigger] items@[j].byte_view(),
                    k as nat,
                    result@[j]@,
                ),
        decreases n - i,
    {
        let set = convert_to_hashset(vstd::slice::slice_index_get(items, i), k);
        result.push(set);
        i = i + 1;
    }
    result
}

/// Relies on `std::collections::HashSet::iter`: it yields each element of
/// the set exactly once, in no promised order.
#[verifier::external_body]
fn set_to_vec(s: &HashSet<u64>) -> (v: Vec<u64>)
    ensures
        v@.to_set() == s@,
        v@.no_duplicates(),
{
    s.iter().copied().collect()
}

/// Searches every unordered pair of sets for a common value.  A result is
/// a value lying in two different sets; no result means every pair of sets
/// is disjoint.
pub fn overlapping_hash(hashset_vector: Vec<HashSet<u64>>) -> (r: Option<u64>)
    ensures
        match r {
            Some(h) => exists|i: int, j: int|
                0 <= i < j < hashset_vector@.len() && (#[trigger] hashset_vector@[i])@.contains(h)
                    && (#[trigger] hashset_vector@[j])@.contains(h),
            None => forall|i: int, j: int|
                0 <= i < j < hashset_vector@.len() ==> (#[trigger] hashset_vector@[i])@.intersect(
                    (#[trigger] hashset_vector@[j])@,
                ) == Set::<u64>::empty(),
        },
{
    let n = hashset_vector.len();
    let mut i: usize = 0;
    while i < n
        invariant
            n == hashset_vector@.len(),
            0 <= i <= n,
            forall|i1: int, j1: int|
                0 <= i1 < j1 < n && i1 < i ==> (#[trigger] hashset_vector@[i1])@.intersect(
                    (#[trigger] hashset_vector@[j1])@,
                ) == Set::<u64>::empty(),
        decreases n - i,
    {
        let elements = set_to_vec(&hashset_vector[i]);
        let mut j = i + 1;
        while j < n
            invariant
                n == hashset_vector@.len(),
                0 <= i < j <= n || (i + 1 == j && j > n),
                i < n,
                elements@.to_set() == hashset_vector@[i as int]@,
                forall|i1: int, j1: int|
                    0 <= i1 < j1 < n && i1 < i ==> (#[trigger] hashset_vector@[i1])@.intersect(
                        (#[trigger] hashset_vector@[j1])@,
                    ) == Set::<u64>::empty(),
                forall|j1: int|
                    i < j1 < j ==> hashset_vector@[i as int]@.intersect(
                        (#[trigger] hashset_vector@[j1])@,
                    ) == Set::<u64>::empty(),
            decreases n - j,
        {
            let m = elements.len();
            let mut e: usize = 0;
            while e < m
                invariant
                    n == hashset_vector@.len(),
                    0 <= i < j < n,
                    m == elements@.len(),
                    0 <= e <= m,
                    elements@.to_set() == hashset_vector@[i as int]@,
                    forall|q: int|
                        0 <= q < e ==> !(hashset_vector@[j as int]@).contains(
                            #[trigger] elements@[q],
                        ),
                decreases m - e,
            {
                let candidate = elements[e];
                if hashset_vector[j].contains(&candidate) {
                    proof {
                        assert(elements@.contains(candidate));
                        assert(hashset_vector@[i as int]@.contains(candidate));
                    }
                    return Some(candidate);
                }
                e = e + 1;
            }
            proof {
                assert forall|h: u64|
                    !hashset_vector@[i as int]@.intersect(hashset_vector@[j as int]@).contains(
                        h,
                    ) by {
                    if hashset_vector@[i as int]@.contains(h) && hashset_vector@[j as int]@.contains(
                        h,
                    ) {
                        assert(elements@.to_set().contains(h));
                        let q = choose|q: int| 0 <= q < elements@.len() && elements@[q] == h;
                        assert(!hashset_vector@[j as int]@.contains(elements@[q]));
                    }
                }
                assert(hashset_vector@[i as int]@.intersect(hashset_vector@[j as int]@)
                    =~= Set::<u64>::empty());
            }
            j = j + 1;
        }
        i = i + 1;
    }
    None
}

/// The second-largest byte length among the items, counting two items of the
/// largest length as first and second.  An empty or one-item collection
/// yields zero.
pub open spec fn top_two_lengths(lens: Seq<usize>) -> (usize, usize)
    decreases lens.len(),
{
    if lens.len() == 0 {
        (0usize, 0usize)
    } else {
        let (first, second) = top_two_lengths(lens.drop_last());
        let current = lens.last();
        if current > first {
            (current, first)
        } else if current > second {
            (first, current)
        } else {
            (first, second)
        }
    }
}

/// Both tracked lengths stay within any bound the items' lengths respect.
pub proof fn lemma_top_two_lengths_bounded(lens: Seq<usize>, bound: usize)
    requires
        forall|i: int| 0 <= i < lens.len() ==> lens[i] <= bound,
    ensures
        top_two_lengths(lens).0 <= bound,
        top_two_lengths(lens).1 <= bound,
    decreases lens.len(),
{
    if lens.len() > 0 {
        assert forall|i: int| 0 <= i < lens.drop_last().len() implies lens.drop_last()[i]
            <= bound by {
            assert(lens.drop_last()[i] == lens[i]);
        }
        lemma_top_two_lengths_bounded(lens.drop_last(), bound);
        assert(lens.last() <= bound);
    }
}

/// The byte lengths of the items, in order.
pub open spec fn item_lengths<T: HasLen>(items: Seq<T>) -> Seq<usize> {
    Seq::new(items.len(), |i: int| items[i].spec_len())
}

/// The length of the second-longest item, used as an upper bound on how long
/// a substring shared by two items can be.
pub fn find_second_to_longest<T: HasLen>(items: &[T]) -> (second: usize)
    ensures
        second == top_two_lengths(item_lengths(items@)).1,
{
    let ghost lens = item_lengths(items@);
    let mut first: usize = 0;
    let mut second: usize = 0;
    let n = items.len();
    let mut i: usize = 0;
    while i < n
        invariant
            n == items@.len(),
            0 <= i <= n,
            lens == item_lengths(items@),
            (first, second) == top_two_lengths(lens.subrange(0, i as int)),
        decreases n - i,
    {
        let current = vstd::slice::slice_index_get(items, i).len();
        proof {
            assert(lens.subrange(0, i + 1).drop_last() =~= lens.subrange(0, i as int));
            assert(lens.subrange(0, i + 1).last() == lens[i as int]);
        }
        if current > first {
            second = first;
            first = current;
        } else if current > second {
            second = current;
        }
        i = i + 1;
    }
    proof {
        assert(lens.subrange(0, n as int) =~= lens);
    }
    second
}

} // verus!
