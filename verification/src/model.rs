//! The mathematical model of the batch transform: window hashes per
//! document, the corpus-wide duplicate set, the positions those duplicates
//! cover, and the filtered documents.  The executable pipeline is specified
//! against these functions.

use vstd::prelude::*;

use crate::hashing::cyclic_window_hash;
use crate::text::byte_project;

verus! {

/// How many windows of width `w` a document of `n` characters has.
/// A width of zero, or one exceeding the document, yields none: such a
/// document is non-reducible and passes through unchanged.
pub open spec fn window_count(n: nat, w: nat) -> nat {
    if 1 <= w && w <= n {
        (n - w + 1) as nat
    } else {
        0
    }
}

/// The hash of the window of `w` bytes starting at position `i`.
pub open spec fn window_hash_at(b: Seq<u8>, w: nat, i: int) -> u64 {
    cyclic_window_hash(b.subrange(i, i + w))
}

/// The ordered sequence of window hashes over a byte sequence.
pub open spec fn byte_hash_seq(b: Seq<u8>, w: nat) -> Seq<u64> {
    Seq::new(window_count(b.len(), w), |i: int| window_hash_at(b, w, i))
}

/// The ordered sequence of window hashes of a document, taken over its
/// single-byte character projection.
pub open spec fn hash_seq(s: Seq<char>, w: nat) -> Seq<u64> {
    byte_hash_seq(byte_project(s), w)
}

/// The set of distinct window hashes occurring anywhere in one document.
pub open spec fn distinct_hashes(s: Seq<char>, w: nat) -> Set<u64> {
    hash_seq(s, w).to_set()
}

/// The hash values that occur in the distinct-hash sets of at least two
/// documents of the batch.
pub open spec fn corpus_duplicates(docs: Seq<Seq<char>>, w: nat) -> Set<u64> {
    Set::new(
        |h: u64|
            exists|i: int, j: int|
                0 <= i < j < docs.len() && #[trigger] distinct_hashes(docs[i], w).contains(h)
                    && #[trigger] distinct_hashes(docs[j], w).contains(h),
    )
}

/// Position `p` of the document lies under some window whose hash belongs
/// to `dups`.
pub open spec fn covered(s: Seq<char>, w: nat, dups: Set<u64>, p: int) -> bool {
    exists|j: int|
        0 <= j < window_count(s.len(), w) && #[trigger] dups.contains(hash_seq(s, w)[j]) && j <= p
            < j + w
}

/// Like [`covered`], but looking only at windows starting before `hi`.
pub open spec fn covered_before(s: Seq<char>, w: nat, dups: Set<u64>, hi: int, p: int) -> bool {
    exists|j: int|
        0 <= j < hi && #[trigger] dups.contains(hash_seq(s, w)[j]) && j <= p < j + w
}

/// Looking at every window start is the same as [`covered`].
pub proof fn lemma_covered_before_full(s: Seq<char>, w: nat, dups: Set<u64>, p: int)
    ensures
        covered_before(s, w, dups, window_count(s.len(), w) as int, p) <==> covered(s, w, dups, p),
{
    let hi = window_count(s.len(), w) as int;
    if covered_before(s, w, dups, hi, p) {
        let j = choose|j: int|
            0 <= j < hi && #[trigger] dups.contains(hash_seq(s, w)[j]) && j <= p < j + w;
        assert(covered(s, w, dups, p));
    }
    if covered(s, w, dups, p) {
        let j = choose|j: int|
            0 <= j < window_count(s.len(), w) && #[trigger] dups.contains(hash_seq(s, w)[j]) && j
                <= p < j + w;
        assert(covered_before(s, w, dups, hi, p));
    }
}

/// The first `n` characters of the document, every covered position removed.
pub open spec fn filter_prefix(s: Seq<char>, w: nat, dups: Set<u64>, n: int) -> Seq<char>
    decreases n,
{
    if n <= 0 {
        Seq::empty()
    } else {
        filter_prefix(s, w, dups, n - 1) + if covered(s, w, dups, n - 1) {
            Seq::<char>::empty()
        } else {
            seq![s[n - 1]]
        }
    }
}

/// The document with every covered position removed, in order.
pub open spec fn filter_doc(s: Seq<char>, w: nat, dups: Set<u64>) -> Seq<char> {
    filter_prefix(s, w, dups, s.len() as int)
}

/// The whole batch transform: every document filtered against the one
/// corpus-wide duplicate set, input order kept.
pub open spec fn clean_spec(docs: Seq<Seq<char>>, w: nat) -> Seq<Seq<char>> {
    Seq::new(docs.len(), |i: int| filter_doc(docs[i], w, corpus_duplicates(docs, w)))
}

/// The character sequences of a batch of strings, in order.
pub open spec fn seq_views(ss: Seq<String>) -> Seq<Seq<char>> {
    Seq::new(ss.len(), |i: int| ss[i]@)
}

/// What the "seen once" accumulator holds after a pass over the given
/// distinct-hash sets: their union.
pub open spec fn seen_once(sets: Seq<Set<u64>>) -> Set<u64>
    decreases sets.len(),
{
    if sets.len() == 0 {
        Set::empty()
    } else {
        seen_once(sets.drop_last()).union(sets.last())
    }
}

/// What the "seen twice or more" accumulator holds after a pass over the
/// given distinct-hash sets.
pub open spec fn seen_twice(sets: Seq<Set<u64>>) -> Set<u64>
    decreases sets.len(),
{
    if sets.len() == 0 {
        Set::empty()
    } else {
        seen_twice(sets.drop_last()).union(sets.last().intersect(seen_once(sets.drop_last())))
    }
}

/// The union accumulator holds exactly the hashes present in some set.
pub proof fn lemma_seen_once_characterization(sets: Seq<Set<u64>>, h: u64)
    ensures
        seen_once(sets).contains(h) <==> exists|i: int|
            0 <= i < sets.len() && #[trigger] sets[i].contains(h),
    decreases sets.len(),
{
    if sets.len() > 0 {
        lemma_seen_once_characterization(sets.drop_last(), h);
        if seen_once(sets).contains(h) {
            if sets.last().contains(h) {
                assert(sets[sets.len() - 1].contains(h));
            } else {
                let i = choose|i: int|
                    0 <= i < sets.drop_last().len() && #[trigger] sets.drop_last()[i].contains(h);
                assert(sets[i].contains(h));
            }
        }
        if exists|i: int| 0 <= i < sets.len() && #[trigger] sets[i].contains(h) {
            let i = choose|i: int| 0 <= i < sets.len() && #[trigger] sets[i].contains(h);
            if i < sets.len() - 1 {
                assert(sets.drop_last()[i].contains(h));
            }
        }
    }
}

/// The second accumulator holds exactly the hashes present in two distinct
/// sets: the order of the pass does not matter.
pub proof fn lemma_seen_twice_characterization(sets: Seq<Set<u64>>, h: u64)
    ensures
        seen_twice(sets).contains(h) <==> exists|i: int, j: int|
            0 <= i < j < sets.len() && #[trigger] sets[i].contains(h) && #[trigger] sets[j].contains(
                h,
            ),
    decreases sets.len(),
{
    if sets.len() > 0 {
        lemma_seen_twice_characterization(sets.drop_last(), h);
        lemma_seen_once_characterization(sets.drop_last(), h);
        let n = sets.len() - 1;
        if seen_twice(sets).contains(h) {
            if seen_twice(sets.drop_last()).contains(h) {
                let (i, j) = choose|i: int, j: int|
                    0 <= i < j < sets.drop_last().len() && #[trigger] sets.drop_last()[i].contains(h)
                        && #[trigger] sets.drop_last()[j].contains(h);
                assert(sets[i].contains(h) && sets[j].contains(h));
            } else {
                let i = choose|i: int|
                    0 <= i < sets.drop_last().len() && #[trigger] sets.drop_last()[i].contains(h);
                assert(sets[i].contains(h) && sets[n].contains(h));
            }
        }
        if exists|i: int, j: int|
            0 <= i < j < sets.len() && #[trigger] sets[i].contains(h) && #[trigger] sets[j].contains(
                h,
            ) {
            let (i, j) = choose|i: int, j: int|
                0 <= i < j < sets.len() && #[trigger] sets[i].contains(h)
                    && #[trigger] sets[j].contains(h);
            if j < n {
                assert(sets.drop_last()[i].contains(h) && sets.drop_last()[j].contains(h));
            } else {
                assert(sets.drop_last()[i].contains(h));
            }
        }
    }
}

/// The two-accumulator pass over the documents' distinct-hash sets computes
/// exactly the corpus-wide duplicate set.
pub proof fn lemma_seen_twice_is_corpus_duplicates(docs: Seq<Seq<char>>, w: nat)
    ensures
        seen_twice(Seq::new(docs.len(), |i: int| distinct_hashes(docs[i], w)))
            == corpus_duplicates(docs, w),
{
    let sets = Seq::new(docs.len(), |i: int| distinct_hashes(docs[i], w));
    assert forall|h: u64|
        seen_twice(sets).contains(h) == corpus_duplicates(docs, w).contains(h) by {
        lemma_seen_twice_characterization(sets, h);
        if seen_twice(sets).contains(h) {
            let (i, j) = choose|i: int, j: int|
                0 <= i < j < sets.len() && #[trigger] sets[i].contains(h)
                    && #[trigger] sets[j].contains(h);
            assert(distinct_hashes(docs[i], w).contains(h) && distinct_hashes(
                docs[j],
                w,
            ).contains(h));
        }
        if corpus_duplicates(docs, w).contains(h) {
            let (i, j) = choose|i: int, j: int|
                0 <= i < j < docs.len() && #[trigger] distinct_hashes(docs[i], w).contains(h)
                    && #[trigger] distinct_hashes(docs[j], w).contains(h);
            assert(sets[i].contains(h) && sets[j].contains(h));
        }
    }
    assert(seen_twice(sets) =~= corpus_duplicates(docs, w));
}

/// The per-window duplicate mask of a document: entry `i` says whether the
/// hash of the window starting at `i` belongs to the duplicate set.
pub open spec fn dup_mask(s: Seq<char>, w: nat, dups: Set<u64>) -> Seq<bool> {
    Seq::new(window_count(s.len(), w), |i: int| dups.contains(hash_seq(s, w)[i]))
}

/// Appending to a sequence adds exactly one element to the set of its values.
pub proof fn lemma_to_set_push(s: Seq<u64>, x: u64)
    ensures
        s.push(x).to_set() == s.to_set().insert(x),
{
    assert forall|y: u64| s.push(x).to_set().contains(y) == s.to_set().insert(x).contains(y) by {
        if s.push(x).contains(y) {
            let i = choose|i: int| 0 <= i < s.push(x).len() && s.push(x)[i] == y;
            if i < s.len() {
                assert(s[i] == y);
            }
        }
        if s.contains(y) {
            let i = choose|i: int| 0 <= i < s.len() && s[i] == y;
            assert(s.push(x)[i] == y);
        }
        assert(s.push(x)[s.len() as int] == x);
    }
    assert(s.push(x).to_set() =~= s.to_set().insert(x));
}

/// `a` can be obtained from `b` by deleting characters: no character is
/// inserted, reordered or substituted.
pub open spec fn is_subsequence(a: Seq<char>, b: Seq<char>) -> bool
    decreases a.len() + b.len(),
{
    if a.len() == 0 {
        true
    } else if b.len() == 0 {
        false
    } else {
        (a.last() == b.last() && is_subsequence(a.drop_last(), b.drop_last())) || is_subsequence(
            a,
            b.drop_last(),
        )
    }
}

/// Every sequence is a subsequence of itself.
pub proof fn lemma_is_subsequence_refl(a: Seq<char>)
    ensures
        is_subsequence(a, a),
    decreases a.len(),
{
    if a.len() > 0 {
        lemma_is_subsequence_refl(a.drop_last());
    }
}

/// Every prefix of a sequence is a subsequence of it.
pub proof fn lemma_prefix_is_subsequence(s: Seq<char>, x: int)
    requires
        0 <= x <= s.len(),
    ensures
        is_subsequence(s.subrange(0, x), s),
    decreases s.len() - x,
{
    if x == s.len() {
        assert(s.subrange(0, x) =~= s);
        lemma_is_subsequence_refl(s);
    } else {
        lemma_prefix_is_subsequence(s.drop_last(), x);
        assert(s.drop_last().subrange(0, x) =~= s.subrange(0, x));
        if s.subrange(0, x).len() > 0 {
            assert(is_subsequence(s.subrange(0, x), s.drop_last()));
        }
    }
}

/// Deleting one contiguous span leaves a subsequence.
pub proof fn lemma_remove_range_is_subsequence(s: Seq<char>, x: int, y: int)
    requires
        0 <= x <= y <= s.len(),
    ensures
        is_subsequence(s.subrange(0, x) + s.subrange(y, s.len() as int), s),
    decreases s.len() - y,
{
    let c = s.subrange(0, x) + s.subrange(y, s.len() as int);
    if y == s.len() {
        assert(c =~= s.subrange(0, x));
        lemma_prefix_is_subsequence(s, x);
    } else {
        lemma_remove_range_is_subsequence(s.drop_last(), x, y);
        let prev = s.drop_last().subrange(0, x) + s.drop_last().subrange(
            y,
            s.drop_last().len() as int,
        );
        assert(c.len() > 0 && c.last() == s.last());
        assert(c.drop_last() =~= prev);
    }
}

/// A subsequence of a subsequence is a subsequence.
pub proof fn lemma_is_subsequence_trans(a: Seq<char>, b: Seq<char>, c: Seq<char>)
    requires
        is_subsequence(a, b),
        is_subsequence(b, c),
    ensures
        is_subsequence(a, c),
    decreases a.len() + b.len() + c.len(),
{
    if a.len() == 0 {
    } else {
        if b.last() == c.last() && is_subsequence(b.drop_last(), c.drop_last()) {
            if a.last() == b.last() && is_subsequence(a.drop_last(), b.drop_last()) {
                lemma_is_subsequence_trans(a.drop_last(), b.drop_last(), c.drop_last());
            } else {
                lemma_is_subsequence_trans(a, b.drop_last(), c.drop_last());
            }
        } else {
            lemma_is_subsequence_trans(a, b, c.drop_last());
        }
    }
}

/// Appending a fresh element keeps a sequence duplicate-free.
pub proof fn lemma_push_distinct(s: Seq<u64>, x: u64)
    requires
        s.no_duplicates(),
        !s.contains(x),
    ensures
        s.push(x).no_duplicates(),
{
    assert forall|i: int, j: int|
        0 <= i < s.push(x).len() && 0 <= j < s.push(x).len() && i != j implies s.push(x)[i]
        != s.push(x)[j] by {
        if i < s.len() && j < s.len() {
            assert(s[i] == s.push(x)[i] && s[j] == s.push(x)[j]);
        } else if j == s.len() {
            assert(s.push(x)[j] == x);
            if s[i] == x {
                assert(s.contains(x));
            }
        } else {
            assert(s.push(x)[i] == x);
            if s[j] == x {
                assert(s.contains(x));
            }
        }
    }
}

/// Over a stretch of uncovered positions the filter copies the text.
pub proof fn lemma_filter_segment_uncovered(s: Seq<char>, w: nat, dups: Set<u64>, a: int, b: int)
    requires
        0 <= a <= b <= s.len(),
        forall|p: int| a <= p < b ==> !covered(s, w, dups, p),
    ensures
        filter_prefix(s, w, dups, b) == filter_prefix(s, w, dups, a) + s.subrange(a, b),
    decreases b - a,
{
    if a == b {
        assert(filter_prefix(s, w, dups, b) =~= filter_prefix(s, w, dups, a) + s.subrange(a, b));
    } else {
        lemma_filter_segment_uncovered(s, w, dups, a, b - 1);
        assert(filter_prefix(s, w, dups, b) =~= filter_prefix(s, w, dups, a) + s.subrange(a, b));
    }
}

/// Over a stretch of covered positions the filter emits nothing.
pub proof fn lemma_filter_segment_covered(s: Seq<char>, w: nat, dups: Set<u64>, a: int, b: int)
    requires
        0 <= a <= b <= s.len(),
        forall|p: int| a <= p < b ==> covered(s, w, dups, p),
    ensures
        filter_prefix(s, w, dups, b) == filter_prefix(s, w, dups, a),
    decreases b - a,
{
    if a < b {
        lemma_filter_segment_covered(s, w, dups, a, b - 1);
        assert(filter_prefix(s, w, dups, b) =~= filter_prefix(s, w, dups, a));
    }
}

/// A document none of whose positions is covered comes through the filter
/// unchanged.
pub proof fn lemma_filter_prefix_uncovered(s: Seq<char>, w: nat, dups: Set<u64>, n: int)
    requires
        0 <= n <= s.len(),
        forall|p: int| 0 <= p < n ==> !covered(s, w, dups, p),
    ensures
        filter_prefix(s, w, dups, n) == s.subrange(0, n),
    decreases n,
{
    if n > 0 {
        lemma_filter_prefix_uncovered(s, w, dups, n - 1);
        assert(filter_prefix(s, w, dups, n) =~= s.subrange(0, n));
    } else {
        assert(filter_prefix(s, w, dups, n) =~= s.subrange(0, n));
    }
}

/// If no window hash of the document belongs to `dups`, the filter is the
/// identity.  In particular this holds for a non-reducible document, which
/// has no windows at all.
pub proof fn lemma_filter_doc_identity(s: Seq<char>, w: nat, dups: Set<u64>)
    requires
        forall|j: int|
            0 <= j < window_count(s.len(), w) ==> !#[trigger] dups.contains(hash_seq(s, w)[j]),
    ensures
        filter_doc(s, w, dups) == s,
{
    assert forall|p: int| 0 <= p < s.len() implies !covered(s, w, dups, p) by {
        if covered(s, w, dups, p) {
            let j = choose|j: int|
                0 <= j < window_count(s.len(), w) && #[trigger] dups.contains(hash_seq(s, w)[j])
                    && j <= p < j + w;
        }
    }
    lemma_filter_prefix_uncovered(s, w, dups, s.len() as int);
    assert(s.subrange(0, s.len() as int) =~= s);
}

} // verus!
