//! Binary search for the length of the longest substring shared by two items
//! of a collection, probing each candidate length with the byte-window
//! fingerprint sets.  The fingerprints carry no promised values, so the
//! contracts here pin the decision logic — how the interval moves and where
//! the estimate can land — and what any returned hash implies about the
//! collection's shape.

use vstd::prelude::*;

use crate::byte_sliceable_trait::ByteSliceable;
use crate::dev::convert_multiple_to_hashset;
use crate::dev::fingerprint_set_shape;
use crate::dev::find_second_to_longest;
use crate::dev::item_lengths;
use crate::dev::overlapping_hash;
use crate::dev::top_two_lengths;
use crate::has_len_trait::HasLen;

verus! {

/// The shrinking interval of candidate lengths, with the best length at
/// which a shared substring was seen so far.
pub struct SearchRange {
    pub low: usize,
    pub high: usize,
    pub best_estimate: Option<usize>,
}

impl SearchRange {
    /// The interval is ordered.
    pub open spec fn wf(self) -> bool {
        self.low <= self.high
    }

    /// Starts the search between the requested minimum and the length of the
    /// second-longest item: no longer substring can occur in two items.
    pub fn from_collection<T: HasLen>(minimum_size: usize, collection: &[T]) -> (r: SearchRange)
        ensures
            r.wf(),
            r.low == minimum_size,
            r.high == if top_two_lengths(item_lengths(collection@)).1 > minimum_size {
                top_two_lengths(item_lengths(collection@)).1
            } else {
                minimum_size
            },
            r.best_estimate is None,
    {
        let second = find_second_to_longest(collection);
        let high = if second > minimum_size {
            second
        } else {
            minimum_size
        };
        SearchRange { low: minimum_size, high, best_estimate: None }
    }

    /// Starts the search between the requested minimum and a known maximum.
    pub fn from_maximum(minimum_size: usize, maximum_size: usize) -> (r: SearchRange)
        requires
            maximum_size < usize::MAX,
            minimum_size <= maximum_size + 1,
        ensures
            r.wf(),
            r.low == minimum_size,
            r.high == maximum_size + 1,
            r.best_estimate is None,
    {
        SearchRange { low: minimum_size, high: maximum_size + 1, best_estimate: None }
    }

    /// The candidate length probed next: the midpoint of the interval,
    /// computed from the interval's width so that the sum of the two bounds
    /// never has to fit the machine word.
    pub fn midpoint(&self) -> (m: usize)
        requires
            self.wf(),
        ensures
            m == (self.low + self.high) / 2,
            self.low <= m <= self.high,
    {
        self.low + (self.high - self.low) / 2
    }

    /// Narrows the interval after one probe: a hit records the midpoint as
    /// the best estimate and raises the floor; a miss lowers the ceiling.
    pub fn update(&mut self, is_substring_found: bool)
        requires
            old(self).wf(),
        ensures
            final(self).wf(),
            ({
                let mid = (((old(self).low + old(self).high) / 2) as usize);
                &&& final(self).low == if is_substring_found {
                    mid
                } else {
                    old(self).low
                }
                &&& final(self).high == if is_substring_found {
                    old(self).high
                } else {
                    mid
                }
                &&& final(self).best_estimate == if is_substring_found {
                    Some(mid)
                } else {
                    old(self).best_estimate
                }
            }),
    {
        if is_substring_found {
            self.best_estimate = Some(self.midpoint());
            self.low = self.midpoint();
        } else {
            self.high = self.midpoint();
        }
    }

    /// The interval can no longer be narrowed.
    pub fn is_finished(&self) -> (r: bool)
        requires
            self.wf(),
        ensures
            r == (self.high - self.low <= 1),
    {
        (self.high - self.low) <= 1
    }
}

/// Probes one candidate length: fingerprints every item's windows of the
/// range's midpoint width and looks for a fingerprint shared by two items.
/// A hit can only arise from two distinct items each long enough to hold a
/// window of that width.
pub fn overlapping_hash_for_search_range<T: ByteSliceable>(
    collection: &[T],
    search_range: &SearchRange,
) -> (r: Option<u64>)
    requires
        search_range.wf(),
    ensures
        r is Some ==> {
            let mid = (search_range.low + search_range.high) / 2;
            &&& mid >= 1
            &&& exists|i: int, j: int|
                0 <= i < j < collection@.len() && (#[trigger] collection@[i]).byte_view().len()
                    >= mid && (#[trigger] collection@[j]).byte_view().len() >= mid
        },
{
    let mid = search_range.midpoint();
    let hashset_vector = convert_multiple_to_hashset(collection, mid);
    let ghost sets = hashset_vector@;
    let result = overlapping_hash(hashset_vector);
    proof {
        if result is Some {
            let h = result->Some_0;
            let (i, j) = choose|i: int, j: int|
                0 <= i < j < sets.len() && (#[trigger] sets[i])@.contains(h)
                    && (#[trigger] sets[j])@.contains(h);
            assert(fingerprint_set_shape(collection@[i].byte_view(), mid as nat, sets[i]@));
            assert(fingerprint_set_shape(collection@[j].byte_view(), mid as nat, sets[j]@));
            assert(sets[i]@ != Set::<u64>::empty() && sets[j]@ != Set::<u64>::empty()) by {
                assert(!Set::<u64>::empty().contains(h));
            }
            assert(collection@[i].byte_view().len() >= mid && collection@[j].byte_view().len()
                >= mid);
        }
    }
    result
}

/// Searches, by bisection over candidate lengths, for the length of the
/// longest substring shared by two items, together with a fingerprint of one
/// such substring.  A result's length always lies between the requested
/// minimum and the initial ceiling, and a result can only arise from a
/// collection holding two items of at least that length.
pub fn length_and_hash_of_shared_substring<T: ByteSliceable + HasLen>(
    minimum_size: usize,
    maximum_size: Option<usize>,
    items: &[T],
) -> (r: Option<(usize, u64)>)
    requires
        minimum_size < usize::MAX,
        maximum_size matches Some(m) ==> m < usize::MAX && minimum_size <= m + 1,
    ensures
        r matches Some((size, h)) ==> {
            &&& minimum_size <= size < usize::MAX
            &&& exists|i: int, j: int|
                0 <= i < j < items@.len() && (#[trigger] items@[i]).byte_view().len() >= 1
                    && (#[trigger] items@[j]).byte_view().len() >= 1
        },
{
    let mut search_range: SearchRange;
    if let Some(maximum) = maximum_size {
        search_range = SearchRange::from_maximum(minimum_size, maximum);
    } else {
        search_range = SearchRange::from_collection(minimum_size, items);
    }

    let mut overlapping: Option<u64> = None;
    let mut round: usize = 0;
    while round < 64
        invariant
            0 <= round <= 64,
            search_range.wf(),
            minimum_size <= search_range.low < usize::MAX,
            search_range.best_estimate matches Some(b) ==> minimum_size <= b < usize::MAX,
            overlapping is Some ==> exists|i: int, j: int|
                0 <= i < j < items@.len() && (#[trigger] items@[i]).byte_view().len() >= 1
                    && (#[trigger] items@[j]).byte_view().len() >= 1,
            overlapping is None ==> search_range.best_estimate is None,
        decreases 64 - round,
    {
        let loop_hash = overlapping_hash_for_search_range(items, &search_range);
        search_range.update(loop_hash.is_some());
        if let Some(hash) = loop_hash {
            overlapping = Some(hash);
        }
        if search_range.is_finished() {
            break;
        }
        round = round + 1;
    }

    match (search_range.best_estimate, overlapping) {
        (Some(size), Some(hash)) => Some((size, hash)),
        _ => None,
    }
}

} // verus!
