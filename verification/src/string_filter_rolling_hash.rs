//! The corpus deduplication pipeline: one supervisor per document computes
//! the rolling window hashes once, a two-set pass over all supervisors finds
//! the hashes shared by at least two documents, and each document is then
//! rebuilt with every span that lies under a shared window removed.

use std::collections::HashSet;

use vstd::prelude::*;

use crate::hashing::RollingHasher;
use crate::hashing::hasher_window;
use crate::model::byte_hash_seq;
use crate::model::corpus_duplicates;
use crate::model::covered;
use crate::model::covered_before;
use crate::model::clean_spec;
use crate::model::distinct_hashes;
use crate::model::dup_mask;
use crate::model::filter_doc;
use crate::model::filter_prefix;
use crate::model::hash_seq;
use crate::model::lemma_covered_before_full;
use crate::model::lemma_filter_doc_identity;
use crate::model::lemma_filter_segment_covered;
use crate::model::lemma_filter_segment_uncovered;
use crate::model::lemma_push_distinct;
use crate::model::lemma_seen_twice_is_corpus_duplicates;
use crate::model::lemma_to_set_push;
use crate::model::seen_once;
use crate::model::seen_twice;
use crate::model::seq_views;
use crate::model::window_count;
use crate::model::window_hash_at;
use crate::text::byte_project;
use crate::text::chars_of_string;
use crate::text::low_bytes_of_chars;
use crate::text::string_of_chars;

verus! {

broadcast use vstd::std_specs::hash::group_hash_axioms;

/// A half-open interval of character positions to delete.
#[derive(Debug)]
pub struct DeleteRange {
    pub start: usize,
    pub end: usize,
}

impl DeleteRange {
    pub fn new(start: usize, end: usize) -> (r: DeleteRange)
        ensures
            r.start == start,
            r.end == end,
    {
        DeleteRange { start, end }
    }
}

/// One document under deduplication: its text, the window width being
/// enforced, and the hash data computed once from the original text.
#[derive(Debug)]
pub struct StringSupervisor {
    pub base_string: String,
    pub chars: Vec<char>,
    pub window_size: usize,
    pub hash_vec: Vec<u64>,
    pub complete_hashset: HashSet<u64>,
    pub distinct_hash_list: Vec<u64>,
    pub character_count: usize,
}

impl StringSupervisor {
    /// The hash data agrees with the current text.  Holds from construction
    /// until the text is filtered; filtering consumes the supervisor.
    pub open spec fn wf(self) -> bool {
        &&& self.chars@ == self.base_string@
        &&& self.character_count == self.base_string@.len()
        &&& self.hash_vec@ == hash_seq(self.base_string@, self.window_size as nat)
        &&& self.complete_hashset@ == distinct_hashes(self.base_string@, self.window_size as nat)
        &&& self.distinct_hash_list@.to_set() == self.complete_hashset@
        &&& self.distinct_hash_list@.no_duplicates()
    }

    /// Builds the supervisor for one document: counts the characters and, if
    /// the document is reducible, computes the full window hash sequence and
    /// its distinct-hash set in one pass.
    pub fn from_string(base_string: String, window_size: usize) -> (sv: StringSupervisor)
        ensures
            sv.wf(),
            sv.base_string == base_string,
            sv.window_size == window_size,
    {
        let chars = chars_of_string(base_string.as_str());
        let character_count = chars.len();

        if window_size == 0 || window_size > character_count {
            proof {
                assert(window_count(base_string@.len(), window_size as nat) == 0);
                assert(hash_seq(base_string@, window_size as nat) =~= Seq::<u64>::empty());
                assert(distinct_hashes(base_string@, window_size as nat) =~= Set::<u64>::empty());
            }
            proof {
                assert(Seq::<u64>::empty().to_set() =~= Set::<u64>::empty());
            }
            return StringSupervisor {
                base_string,
                chars,
                window_size,
                hash_vec: Vec::new(),
                complete_hashset: HashSet::new(),
                distinct_hash_list: Vec::new(),
                character_count,
            };
        }

        let bytes = low_bytes_of_chars(&chars);
        let (hash_vec, complete_hashset, distinct_hash_list) = get_hash_vec_and_hash_set(
            &bytes,
            window_size,
        );

        proof {
            assert(bytes@ == byte_project(base_string@));
        }
        StringSupervisor {
            base_string,
            chars,
            window_size,
            hash_vec,
            complete_hashset,
            distinct_hash_list,
            character_count,
        }
    }

    /// A document is reducible exactly when it has at least one window.
    pub fn reducible(&self) -> (r: bool)
        ensures
            r == (1 <= self.window_size <= self.character_count),
    {
        1 <= self.window_size && self.window_size <= self.character_count
    }

    /// One boolean per window: whether its hash lies in the given set.
    pub fn is_duplicate_mask(&self, filter_hashset: &HashSet<u64>) -> (mask: Vec<bool>)
        requires
            self.wf(),
        ensures
            mask@ == dup_mask(self.base_string@, self.window_size as nat, filter_hashset@),
    {
        let ghost m = dup_mask(self.base_string@, self.window_size as nat, filter_hashset@);
        let mut mask: Vec<bool> = Vec::new();
        for i in 0..self.hash_vec.len()
            invariant
                self.wf(),
                m == dup_mask(self.base_string@, self.window_size as nat, filter_hashset@),
                m.len() == self.hash_vec@.len(),
                mask@ =~= m.subrange(0, i as int),
        {
            mask.push(filter_hashset.contains(&self.hash_vec[i]));
        }
        proof {
            assert(mask@ =~= m);
        }
        mask
    }
}

/// Position `p` lies inside the given range.
pub open spec fn range_holds(r: DeleteRange, p: int) -> bool {
    r.start <= p < r.end
}

/// The range is non-empty and ends no later than `limit`.
pub open spec fn range_wf(r: DeleteRange, limit: int) -> bool {
    r.start < r.end <= limit
}

/// Range `k` ends strictly before range `k + 1` starts.
pub open spec fn ranges_separated_at(rs: Seq<DeleteRange>, k: int) -> bool {
    rs[k].end < rs[k + 1].start
}

/// Every range is non-empty and within `limit`, and the list ascends with a
/// gap between consecutive ranges: the minimal non-overlapping form.
pub open spec fn ranges_wf(rs: Seq<DeleteRange>, limit: int) -> bool {
    &&& forall|k: int| 0 <= k < rs.len() ==> #[trigger] range_wf(rs[k], limit)
    &&& forall|k: int| 0 <= k < rs.len() - 1 ==> #[trigger] ranges_separated_at(rs, k)
}

/// Position `p` lies inside one of the delete ranges.
pub open spec fn in_ranges(rs: Seq<DeleteRange>, p: int) -> bool {
    exists|k: int| 0 <= k < rs.len() && #[trigger] range_holds(rs[k], p)
}

/// During the scan: position `p` lies in an emitted range or in the run
/// still open.
spec fn scan_covers(rs: Seq<DeleteRange>, open_range: bool, cs: usize, ce: usize, p: int) -> bool {
    in_ranges(rs, p) || (open_range && cs <= p < ce)
}

/// Appending one range to the list extends the positions it holds by exactly
/// that range.
proof fn lemma_in_ranges_push(rs: Seq<DeleteRange>, r: DeleteRange, p: int)
    ensures
        in_ranges(rs.push(r), p) <==> in_ranges(rs, p) || (r.start <= p < r.end),
{
    if in_ranges(rs.push(r), p) {
        let k = choose|k: int| 0 <= k < rs.push(r).len() && #[trigger] range_holds(rs.push(r)[k], p);
        if k < rs.len() {
            assert(range_holds(rs[k], p));
        }
    }
    if in_ranges(rs, p) {
        let k = choose|k: int| 0 <= k < rs.len() && #[trigger] range_holds(rs[k], p);
        assert(range_holds(rs.push(r)[k], p));
    }
    if r.start <= p < r.end {
        assert(range_holds(rs.push(r)[rs.len() as int], p));
    }
}

/// A well-formed range list stays well-formed when a further range is
/// appended after a gap.
proof fn lemma_ranges_push_wf(rs: Seq<DeleteRange>, r: DeleteRange, limit: int)
    requires
        ranges_wf(rs, limit),
        range_wf(r, limit),
        rs.len() > 0 ==> rs[rs.len() - 1].end < r.start,
    ensures
        ranges_wf(rs.push(r), limit),
{
    assert forall|k: int| 0 <= k < rs.push(r).len() implies #[trigger] range_wf(
        rs.push(r)[k],
        limit,
    ) by {
        if k < rs.len() {
            assert(range_wf(rs[k], limit));
            assert(rs.push(r)[k] == rs[k]);
        } else {
            assert(rs.push(r)[k] == r);
        }
    }
    assert forall|k: int| 0 <= k < rs.push(r).len() - 1 implies #[trigger] ranges_separated_at(
        rs.push(r),
        k,
    ) by {
        assert(rs.push(r)[k] == rs[k]);
        if k < rs.len() - 1 {
            assert(ranges_separated_at(rs, k));
            assert(rs.push(r)[k + 1] == rs[k + 1]);
        } else {
            assert(rs.push(r)[k + 1] == r);
        }
    }
}

/// A position covered by a window starting before `h1` is covered when
/// windows starting up to any later bound are allowed too.
proof fn lemma_covered_before_mono(s: Seq<char>, w: nat, dups: Set<u64>, h1: int, h2: int, p: int)
    requires
        h1 <= h2,
        covered_before(s, w, dups, h1, p),
    ensures
        covered_before(s, w, dups, h2, p),
{
    let j = choose|j: int|
        0 <= j < h1 && #[trigger] dups.contains(hash_seq(s, w)[j]) && j <= p < j + w;
    assert(0 <= j < h2 && dups.contains(hash_seq(s, w)[j]) && j <= p < j + w);
}

/// In a list of well-formed ranges where each ends before the next starts,
/// the ends are ordered, and any earlier range ends before a later one starts.
proof fn lemma_ranges_ordered(rs: Seq<DeleteRange>, limit: int, k1: int, k2: int)
    requires
        ranges_wf(rs, limit),
        0 <= k1 <= k2 < rs.len(),
    ensures
        rs[k1].end <= rs[k2].end,
        k1 < k2 ==> rs[k1].end < rs[k2].start,
    decreases k2 - k1,
{
    assert(range_wf(rs[k1], limit));
    assert(range_wf(rs[k2], limit));
    if k1 < k2 {
        lemma_ranges_ordered(rs, limit, k1, k2 - 1);
        assert(ranges_separated_at(rs, k2 - 1));
    }
}

impl StringSupervisor {
    /// The minimal list of non-overlapping, ascending, half-open character
    /// ranges that together hold exactly the positions covered by some
    /// duplicate window.  Runs of flagged windows are merged, and so are two
    /// runs whose spans touch or overlap.
    pub fn filter_range(&self, filter_hashset: &HashSet<u64>) -> (ranges: Vec<DeleteRange>)
        requires
            self.wf(),
        ensures
            ranges_wf(ranges@, self.base_string@.len() as int),
            forall|p: int|
                covered(self.base_string@, self.window_size as nat, filter_hashset@, p)
                    <==> in_ranges(ranges@, p),
    {
        let ghost s = self.base_string@;
        let ghost w_nat = self.window_size as nat;
        let ghost dups = filter_hashset@;
        let w = self.window_size;
        let n = self.hash_vec.len();

        let mut ranges: Vec<DeleteRange> = Vec::new();
        let mut cur_start: usize = 0;
        let mut cur_end: usize = 0;
        let mut open_range: bool = false;
        let ghost mut last: int = 0;

        proof {
            assert(n == window_count(s.len(), w_nat));
        }

        let mut i: usize = 0;
        while i < n
            invariant
                0 <= i <= n,
                self.wf(),
                s == self.base_string@,
                w_nat == self.window_size as nat,
                dups == filter_hashset@,
                w == self.window_size,
                n == self.hash_vec@.len(),
                n == window_count(s.len(), w_nat),
                ranges_wf(ranges@, s.len() as int),
                open_range ==> {
                    &&& 0 <= last < i
                    &&& dups.contains(hash_seq(s, w_nat)[last])
                    &&& cur_end == last + w
                    &&& cur_start <= last
                    &&& cur_start < cur_end <= s.len()
                    &&& (ranges@.len() > 0 ==> ranges@[ranges@.len() - 1].end < cur_start)
                },
                !open_range ==> ranges@.len() == 0 && (forall|j: int|
                    0 <= j < i ==> !dups.contains(#[trigger] hash_seq(s, w_nat)[j])),
                forall|p: int|
                    #![trigger scan_covers(ranges@, open_range, cur_start, cur_end, p)]
                    scan_covers(ranges@, open_range, cur_start, cur_end, p) == covered_before(
                        s,
                        w_nat,
                        dups,
                        i as int,
                        p,
                    ),
            decreases n - i,
        {
            let ghost o_ranges = ranges@;
            let ghost o_open = open_range;
            let ghost o_cs: usize = cur_start;
            let ghost o_ce: usize = cur_end;
            let ghost next: int = i + 1;
            let h = self.hash_vec[i];
            let flagged = filter_hashset.contains(&h);
            proof {
                assert(h == hash_seq(s, w_nat)[i as int]);
                assert(window_count(s.len(), w_nat) >= 1);
                assert(1 <= w_nat <= s.len());
                assert(i + w <= s.len());
            }
            if flagged {
                if !open_range {
                    cur_start = i;
                    cur_end = i + w;
                    open_range = true;
                    proof {
                        last = i as int;
                        assert forall|p: int|
                            scan_covers(ranges@, open_range, cur_start, cur_end, p)
                                == covered_before(s, w_nat, dups, next, p) by {
                            assert(scan_covers(o_ranges, o_open, o_cs, o_ce, p) == covered_before(
                                s,
                                w_nat,
                                dups,
                                i as int,
                                p,
                            ));
                            if cur_start <= p < cur_end {
                                assert(dups.contains(hash_seq(s, w_nat)[i as int]) && i <= p < i
                                    + w_nat);
                                assert(covered_before(s, w_nat, dups, next, p));
                            }
                            if covered_before(s, w_nat, dups, next, p) {
                                let j = choose|j: int|
                                    0 <= j < next && #[trigger] dups.contains(
                                        hash_seq(s, w_nat)[j],
                                    ) && j <= p < j + w_nat;
                                assert(j == i);
                            }
                        }
                    }
                } else if i <= cur_end {
                    cur_end = i + w;
                    proof {
                        assert forall|p: int|
                            scan_covers(ranges@, open_range, cur_start, cur_end, p)
                                == covered_before(s, w_nat, dups, next, p) by {
                            assert(scan_covers(o_ranges, o_open, o_cs, o_ce, p) == covered_before(
                                s,
                                w_nat,
                                dups,
                                i as int,
                                p,
                            ));
                            if scan_covers(ranges@, open_range, cur_start, cur_end, p) {
                                if scan_covers(o_ranges, o_open, o_cs, o_ce, p) {
                                    lemma_covered_before_mono(s, w_nat, dups, i as int, next, p);
                                } else {
                                    assert(o_ce <= p < cur_end);
                                    assert(dups.contains(hash_seq(s, w_nat)[i as int]) && i <= p < i
                                        + w_nat);
                                    assert(covered_before(s, w_nat, dups, next, p));
                                }
                            }
                            if covered_before(s, w_nat, dups, next, p) {
                                let j = choose|j: int|
                                    0 <= j < next && #[trigger] dups.contains(
                                        hash_seq(s, w_nat)[j],
                                    ) && j <= p < j + w_nat;
                                if j < i {
                                    assert(covered_before(s, w_nat, dups, i as int, p));
                                    assert(scan_covers(o_ranges, o_open, o_cs, o_ce, p));
                                    assert(o_ce <= cur_end);
                                } else {
                                    assert(cur_start <= last < i);
                                }
                                assert(scan_covers(ranges@, open_range, cur_start, cur_end, p));
                            }
                        }
                        last = i as int;
                    }
                } else {
                    let ghost closed = DeleteRange { start: cur_start, end: cur_end };
                    ranges.push(DeleteRange::new(cur_start, cur_end));
                    proof {
                        assert(ranges@ == o_ranges.push(closed));
                        lemma_ranges_push_wf(o_ranges, closed, s.len() as int);
                        assert(ranges@[ranges@.len() - 1] == closed);
                    }
                    cur_start = i;
                    cur_end = i + w;
                    proof {
                        assert forall|p: int|
                            scan_covers(ranges@, open_range, cur_start, cur_end, p)
                                == covered_before(s, w_nat, dups, next, p) by {
                            assert(scan_covers(o_ranges, o_open, o_cs, o_ce, p) == covered_before(
                                s,
                                w_nat,
                                dups,
                                i as int,
                                p,
                            ));
                            lemma_in_ranges_push(o_ranges, closed, p);
                            if scan_covers(ranges@, open_range, cur_start, cur_end, p) {
                                if scan_covers(o_ranges, o_open, o_cs, o_ce, p) {
                                    lemma_covered_before_mono(s, w_nat, dups, i as int, next, p);
                                } else {
                                    assert(cur_start <= p < cur_end);
                                    assert(dups.contains(hash_seq(s, w_nat)[i as int]) && i <= p < i
                                        + w_nat);
                                    assert(covered_before(s, w_nat, dups, next, p));
                                }
                            }
                            if covered_before(s, w_nat, dups, next, p) {
                                let j = choose|j: int|
                                    0 <= j < next && #[trigger] dups.contains(
                                        hash_seq(s, w_nat)[j],
                                    ) && j <= p < j + w_nat;
                                if j < i {
                                    assert(covered_before(s, w_nat, dups, i as int, p));
                                    assert(scan_covers(o_ranges, o_open, o_cs, o_ce, p));
                                }
                                assert(scan_covers(ranges@, open_range, cur_start, cur_end, p));
                            }
                        }
                        last = i as int;
                    }
                }
            } else {
                proof {
                    assert forall|p: int|
                        scan_covers(ranges@, open_range, cur_start, cur_end, p) == covered_before(
                            s,
                            w_nat,
                            dups,
                            next,
                            p,
                        ) by {
                        assert(scan_covers(ranges@, open_range, cur_start, cur_end, p)
                            == covered_before(s, w_nat, dups, i as int, p));
                        if covered_before(s, w_nat, dups, next, p) {
                            let j = choose|j: int|
                                0 <= j < next && #[trigger] dups.contains(hash_seq(s, w_nat)[j])
                                    && j <= p < j + w_nat;
                            assert(j != i);
                            assert(covered_before(s, w_nat, dups, i as int, p));
                        }
                        if covered_before(s, w_nat, dups, i as int, p) {
                            lemma_covered_before_mono(s, w_nat, dups, i as int, next, p);
                        }
                    }
                }
            }
            i = i + 1;
        }
        if open_range {
            let ghost o_ranges = ranges@;
            let ghost closed = DeleteRange { start: cur_start, end: cur_end };
            ranges.push(DeleteRange::new(cur_start, cur_end));
            proof {
                assert(ranges@ == o_ranges.push(closed));
                lemma_ranges_push_wf(o_ranges, closed, s.len() as int);
                assert forall|p: int|
                    in_ranges(ranges@, p) == covered_before(s, w_nat, dups, n as int, p) by {
                    lemma_in_ranges_push(o_ranges, closed, p);
                    assert(scan_covers(o_ranges, true, cur_start, cur_end, p) == covered_before(
                        s,
                        w_nat,
                        dups,
                        n as int,
                        p,
                    ));
                }
            }
        } else {
            proof {
                assert forall|p: int|
                    in_ranges(ranges@, p) == covered_before(s, w_nat, dups, n as int, p) by {
                    assert(scan_covers(ranges@, false, cur_start, cur_end, p) == covered_before(
                        s,
                        w_nat,
                        dups,
                        n as int,
                        p,
                    ));
                }
            }
        }
        proof {
            assert forall|p: int| covered(s, w_nat, dups, p) <==> in_ranges(ranges@, p) by {
                lemma_covered_before_full(s, w_nat, dups, p);
            }
        }
        ranges
    }
}

/// Computes, in one pass, the ordered window hash sequence over a byte
/// sequence and the set of its distinct values, rolling the hasher one byte
/// at a time.
fn get_hash_vec_and_hash_set(bytes: &Vec<u8>, window_size: usize) -> (r: (
    Vec<u64>,
    HashSet<u64>,
    Vec<u64>,
))
    requires
        1 <= window_size <= bytes@.len(),
    ensures
        r.0@ == byte_hash_seq(bytes@, window_size as nat),
        r.1@ == r.0@.to_set(),
        r.2@.to_set() == r.1@,
        r.2@.no_duplicates(),
{
    let ghost hs = byte_hash_seq(bytes@, window_size as nat);
    let ghost w = window_size as nat;
    let n = bytes.len();
    let amount_of_hashes = n - window_size + 1;

    let mut hash_vec: Vec<u64> = Vec::new();
    let mut hash_set: HashSet<u64> = HashSet::new();
    let mut distinct: Vec<u64> = Vec::new();
    let mut hasher = RollingHasher::from_block(vstd::slice::slice_subrange(
        bytes.as_slice(),
        0,
        window_size,
    ));

    let first = hasher.value();
    hash_vec.push(first);
    let first_new = hash_set.insert(first);
    if first_new {
        distinct.push(first);
    }
    proof {
        assert(hs.len() == amount_of_hashes);
        assert(hs[0] == window_hash_at(bytes@, w, 0));
        assert(hash_vec@ =~= hs.subrange(0, 1));
        lemma_to_set_push(Seq::<u64>::empty(), first);
        assert(Seq::<u64>::empty().push(first) =~= hash_vec@);
        assert(Seq::<u64>::empty().to_set() =~= Set::<u64>::empty());
        assert(hash_set@ =~= hash_vec@.to_set());
        lemma_to_set_push(Seq::<u64>::empty(), first);
        assert(distinct@ =~= Seq::<u64>::empty().push(first));
        assert(distinct@.to_set() =~= hash_set@);
        assert(distinct@.no_duplicates());
    }

    for remove in 0..amount_of_hashes - 1
        invariant
            1 <= window_size <= bytes@.len(),
            w == window_size as nat,
            hs == byte_hash_seq(bytes@, w),
            n == bytes@.len(),
            amount_of_hashes == bytes@.len() - window_size + 1,
            hasher_window(hasher) == bytes@.subrange(remove as int, remove + window_size),
            hash_vec@ == hs.subrange(0, remove + 1),
            hash_set@ == hash_vec@.to_set(),
            distinct@.to_set() == hash_set@,
            distinct@.no_duplicates(),
    {
        let add = remove + window_size;
        proof {
            assert(bytes@.subrange(remove as int, remove + window_size)[0] == bytes@[remove as int]);
        }
        hasher.rotate(bytes[remove], bytes[add]);
        proof {
            assert(hasher_window(hasher) =~= bytes@.subrange(remove + 1, remove + 1 + window_size));
        }
        let value = hasher.value();
        proof {
            assert(value == hs[remove + 1]);
            lemma_to_set_push(hash_vec@, value);
        }
        hash_vec.push(value);
        let ghost old_distinct = distinct@;
        let ghost old_set = hash_set@;
        let value_new = hash_set.insert(value);
        if value_new {
            distinct.push(value);
            proof {
                lemma_push_distinct(old_distinct, value);
                lemma_to_set_push(old_distinct, value);
                assert(distinct@.to_set() =~= hash_set@);
            }
        } else {
            proof {
                assert(old_set.insert(value) =~= old_set);
            }
        }
        proof {
            assert(hash_vec@ =~= hs.subrange(0, remove + 2));
        }
    }
    proof {
        assert(hash_vec@ =~= hs);
    }
    (hash_vec, hash_set, distinct)
}

/// Appends the characters at positions `from .. to` onto `v`.
fn push_char_segment(v: &mut Vec<char>, chars: &Vec<char>, from: usize, to: usize)
    requires
        from <= to <= chars@.len(),
    ensures
        final(v)@ == old(v)@ + chars@.subrange(from as int, to as int),
{
    let mut p = from;
    while p < to
        invariant
            from <= p <= to <= chars@.len(),
            v@ == old(v)@ + chars@.subrange(from as int, p as int),
        decreases to - p,
    {
        v.push(chars[p]);
        proof {
            assert(v@ =~= old(v)@ + chars@.subrange(from as int, p + 1));
        }
        p = p + 1;
    }
}

impl StringSupervisor {
    /// The document's characters with every position that lies under a
    /// duplicate window removed, in ascending order: the surviving spans are
    /// copied into a fresh buffer, so no offset ever goes stale.
    pub fn filtered_chars(&self, filter_hashset: &HashSet<u64>) -> (v: Vec<char>)
        requires
            self.wf(),
        ensures
            v@ == filter_doc(self.base_string@, self.window_size as nat, filter_hashset@),
    {
        let ghost s = self.base_string@;
        let ghost w_nat = self.window_size as nat;
        let ghost dups = filter_hashset@;
        let ghost limit = s.len() as int;

        let ranges = self.filter_range(filter_hashset);
        let count = self.chars.len();
        let m = ranges.len();

        let mut v: Vec<char> = Vec::new();
        let mut cursor: usize = 0;
        let mut k: usize = 0;
        while k < m
            invariant
                self.wf(),
                s == self.base_string@,
                w_nat == self.window_size as nat,
                dups == filter_hashset@,
                limit == s.len() as int,
                count == self.chars@.len(),
                count == s.len(),
                m == ranges@.len(),
                ranges_wf(ranges@, limit),
                forall|p: int| covered(s, w_nat, dups, p) <==> in_ranges(ranges@, p),
                0 <= k <= m,
                cursor <= count,
                k < m ==> cursor <= ranges@[k as int].start,
                k == 0 ==> cursor == 0,
                k > 0 ==> cursor == ranges@[k - 1].end,
                v@ == filter_prefix(s, w_nat, dups, cursor as int),
            decreases m - k,
        {
            let r_start = ranges[k].start;
            let r_end = ranges[k].end;
            proof {
                assert(range_wf(ranges@[k as int], limit));
                assert forall|p: int| cursor <= p < r_start implies !covered(s, w_nat, dups, p) by {
                    if in_ranges(ranges@, p) {
                        let kk = choose|kk: int|
                            0 <= kk < ranges@.len() && #[trigger] range_holds(ranges@[kk], p);
                        if kk < k {
                            lemma_ranges_ordered(ranges@, limit, kk, k - 1);
                        } else if kk > k {
                            lemma_ranges_ordered(ranges@, limit, k as int, kk);
                        }
                    }
                }
                lemma_filter_segment_uncovered(s, w_nat, dups, cursor as int, r_start as int);
            }
            push_char_segment(&mut v, &self.chars, cursor, r_start);
            proof {
                assert forall|p: int| r_start <= p < r_end implies covered(s, w_nat, dups, p) by {
                    assert(range_holds(ranges@[k as int], p));
                    assert(in_ranges(ranges@, p));
                }
                lemma_filter_segment_covered(s, w_nat, dups, r_start as int, r_end as int);
                assert(v@ =~= filter_prefix(s, w_nat, dups, r_end as int));
                if k + 1 < m {
                    lemma_ranges_ordered(ranges@, limit, k as int, k + 1);
                }
            }
            cursor = r_end;
            k = k + 1;
        }
        proof {
            assert forall|p: int| cursor <= p < count implies !covered(s, w_nat, dups, p) by {
                if in_ranges(ranges@, p) {
                    let kk = choose|kk: int|
                        0 <= kk < ranges@.len() && #[trigger] range_holds(ranges@[kk], p);
                    lemma_ranges_ordered(ranges@, limit, kk, m - 1);
                }
            }
            lemma_filter_segment_uncovered(s, w_nat, dups, cursor as int, count as int);
        }
        push_char_segment(&mut v, &self.chars, cursor, count);
        proof {
            assert(v@ =~= filter_prefix(s, w_nat, dups, s.len() as int));
        }
        v
    }

    /// Rewrites the document in place, deleting every character span that
    /// lies under a window whose hash belongs to the given set.  A document
    /// without windows passes through untouched.  The hash data is left
    /// stale on purpose: it was computed once, from the original text, and
    /// the supervisor is filtered exactly once per run.
    pub fn filter_string_from_hashset(&mut self, filter_hashset: &HashSet<u64>)
        requires
            old(self).wf(),
        ensures
            final(self).base_string@ == filter_doc(
                old(self).base_string@,
                old(self).window_size as nat,
                filter_hashset@,
            ),
            final(self).chars@ == final(self).base_string@,
            final(self).window_size == old(self).window_size,
            final(self).character_count == old(self).character_count,
            final(self).hash_vec == old(self).hash_vec,
            final(self).complete_hashset == old(self).complete_hashset,
            final(self).distinct_hash_list == old(self).distinct_hash_list,
    {
        if self.reducible() {
            let v = self.filtered_chars(filter_hashset);
            let text = string_of_chars(&v);
            self.base_string = text;
            self.chars = v;
        } else {
            proof {
                assert(window_count(self.base_string@.len(), self.window_size as nat) == 0);
                lemma_filter_doc_identity(
                    self.base_string@,
                    self.window_size as nat,
                    filter_hashset@,
                );
            }
        }
    }
}

/// One step of the corpus-wide duplicate scan: every distinct hash of this
/// document joins the "seen once" set, and those already seen in an earlier
/// document join the "seen twice or more" set.
pub fn track_first_and_second_occurrence_of_substring(
    first_set: &mut HashSet<u64>,
    second_set: &mut HashSet<u64>,
    sv: &StringSupervisor,
)
    requires
        sv.wf(),
    ensures
        final(first_set)@ == old(first_set)@.union(sv.complete_hashset@),
        final(second_set)@ == old(second_set)@.union(
            sv.complete_hashset@.intersect(old(first_set)@),
        ),
{
    let ghost f0 = first_set@;
    let ghost s0 = second_set@;
    let ghost full = sv.distinct_hash_list@;
    let n = sv.distinct_hash_list.len();
    let mut idx: usize = 0;
    while idx < n
        invariant
            sv.wf(),
            full == sv.distinct_hash_list@,
            n == full.len(),
            0 <= idx <= n,
            first_set@ == f0.union(full.subrange(0, idx as int).to_set()),
            second_set@ == s0.union(full.subrange(0, idx as int).to_set().intersect(f0)),
        decreases n - idx,
    {
        let item = sv.distinct_hash_list[idx];
        let ghost prefix = full.subrange(0, idx as int);
        proof {
            assert(full.subrange(0, idx + 1) =~= prefix.push(item));
            lemma_to_set_push(prefix, item);
            if prefix.contains(item) {
                let q = choose|q: int| 0 <= q < prefix.len() && prefix[q] == item;
                assert(full[q] == full[idx as int]);
                assert(false);
            }
        }
        if first_set.contains(&item) {
            second_set.insert(item);
            proof {
                assert(first_set@ =~= f0.union(full.subrange(0, idx + 1).to_set()));
                assert(second_set@ =~= s0.union(full.subrange(0, idx + 1).to_set().intersect(f0)));
            }
        } else {
            first_set.insert(item);
            proof {
                assert(first_set@ =~= f0.union(full.subrange(0, idx + 1).to_set()));
                assert(second_set@ =~= s0.union(full.subrange(0, idx + 1).to_set().intersect(f0)));
            }
        }
        idx = idx + 1;
    }
    proof {
        assert(full.subrange(0, n as int) =~= full);
        assert(full.to_set() == sv.complete_hashset@);
        assert(first_set@ =~= f0.union(sv.complete_hashset@));
        assert(second_set@ =~= s0.union(sv.complete_hashset@.intersect(f0)));
    }
}

/// The corpus-wide duplicate set: one pass over every document's
/// distinct-hash set with the two accumulators, returning the hashes seen in
/// at least two documents.
pub fn get_all_second_occurrences_of_substrings(
    supervisor_vector: &Vec<StringSupervisor>,
) -> (second_set: HashSet<u64>)
    requires
        forall|k: int|
            0 <= k < supervisor_vector@.len() ==> #[trigger] supervisor_vector@[k].wf(),
    ensures
        second_set@ == seen_twice(
            Seq::new(
                supervisor_vector@.len(),
                |k: int| supervisor_vector@[k].complete_hashset@,
            ),
        ),
{
    let ghost sets = Seq::new(
        supervisor_vector@.len(),
        |k: int| supervisor_vector@[k].complete_hashset@,
    );
    let mut first_set: HashSet<u64> = HashSet::new();
    let mut second_set: HashSet<u64> = HashSet::new();
    let n = supervisor_vector.len();
    let mut idx: usize = 0;
    while idx < n
        invariant
            n == supervisor_vector@.len(),
            forall|k: int| 0 <= k < n ==> #[trigger] supervisor_vector@[k].wf(),
            sets.len() == n,
            forall|k: int| 0 <= k < n ==> sets[k] == #[trigger] supervisor_vector@[k].complete_hashset@,
            0 <= idx <= n,
            first_set@ == seen_once(sets.subrange(0, idx as int)),
            second_set@ == seen_twice(sets.subrange(0, idx as int)),
        decreases n - idx,
    {
        track_first_and_second_occurrence_of_substring(
            &mut first_set,
            &mut second_set,
            &supervisor_vector[idx],
        );
        proof {
            let pre = sets.subrange(0, idx as int);
            let post = sets.subrange(0, idx + 1);
            assert(post.drop_last() =~= pre);
            assert(post.last() == sets[idx as int]);
            assert(seen_once(post) == seen_once(pre).union(sets[idx as int]));
            assert(seen_twice(post) == seen_twice(pre).union(
                sets[idx as int].intersect(seen_once(pre)),
            ));
        }
        idx = idx + 1;
    }
    proof {
        assert(sets.subrange(0, n as int) =~= sets);
    }
    second_set
}

/// Deduplicates a batch of documents in one pass: hash every document's
/// windows, find the hashes shared by at least two documents, and delete
/// from each document every character span those shared windows cover.
/// Input order and length are kept; a document too short for the window, or
/// a window width of zero, passes through unchanged.
pub fn clean_list_of_strings_single_pass(strings: Vec<String>, minimum_size: usize) -> (r: Vec<
    String,
>)
    ensures
        r@.len() == strings@.len(),
        seq_views(r@) == clean_spec(seq_views(strings@), minimum_size as nat),
{
    let ghost docs = seq_views(strings@);
    let ghost w_nat = minimum_size as nat;

    let mut supervisor_vec: Vec<StringSupervisor> = Vec::new();
    let n = strings.len();
    let mut idx: usize = 0;
    while idx < n
        invariant
            n == strings@.len(),
            docs == seq_views(strings@),
            w_nat == minimum_size as nat,
            0 <= idx <= n,
            supervisor_vec@.len() == idx,
            forall|k: int| 0 <= k < idx ==> #[trigger] supervisor_vec@[k].wf(),
            forall|k: int|
                0 <= k < idx ==> #[trigger] supervisor_vec@[k].base_string@ == docs[k],
            forall|k: int| 0 <= k < idx ==> #[trigger] supervisor_vec@[k].window_size == minimum_size,
        decreases n - idx,
    {
        let sv = StringSupervisor::from_string(strings[idx].clone(), minimum_size);
        supervisor_vec.push(sv);
        idx = idx + 1;
    }

    let filter_hashset = get_all_second_occurrences_of_substrings(&supervisor_vec);
    proof {
        let sets = Seq::new(
            supervisor_vec@.len(),
            |k: int| supervisor_vec@[k].complete_hashset@,
        );
        let model_sets = Seq::new(docs.len(), |k: int| distinct_hashes(docs[k], w_nat));
        assert forall|k: int| 0 <= k < docs.len() implies sets[k] == model_sets[k] by {
            assert(supervisor_vec@[k].wf());
            assert(supervisor_vec@[k].base_string@ == docs[k]);
        }
        assert(sets =~= model_sets);
        lemma_seen_twice_is_corpus_duplicates(docs, w_nat);
        assert(filter_hashset@ == corpus_duplicates(docs, w_nat));
    }

    let ghost dups = filter_hashset@;
    let mut result: Vec<String> = Vec::new();
    let mut out_idx: usize = 0;
    while out_idx < n
        invariant
            n == supervisor_vec@.len(),
            docs.len() == n,
            dups == filter_hashset@,
            dups == corpus_duplicates(docs, w_nat),
            w_nat == minimum_size as nat,
            0 <= out_idx <= n,
            forall|k: int| out_idx <= k < n ==> #[trigger] supervisor_vec@[k].wf(),
            forall|k: int|
                out_idx <= k < n ==> #[trigger] supervisor_vec@[k].base_string@ == docs[k],
            forall|k: int|
                out_idx <= k < n ==> #[trigger] supervisor_vec@[k].window_size == minimum_size,
            result@.len() == out_idx,
            forall|k: int|
                0 <= k < out_idx ==> #[trigger] result@[k]@ == filter_doc(docs[k], w_nat, dups),
        decreases n - out_idx,
    {
        supervisor_vec[out_idx].filter_string_from_hashset(&filter_hashset);
        result.push(supervisor_vec[out_idx].base_string.clone());
        out_idx = out_idx + 1;
    }
    proof {
        assert(seq_views(result@) =~= clean_spec(seq_views(strings@), minimum_size as nat));
    }
    result
}

} // verus!
