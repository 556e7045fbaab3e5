//! The laws of the batch transform, stated over the model and proved once
//! and for all: what a second pass does, how the threshold orders the
//! outputs, that a single document is never touched, and that every output
//! is a subsequence of its input.

use vstd::prelude::*;

use crate::model::byte_hash_seq;
use crate::model::clean_spec;
use crate::model::corpus_duplicates;
use crate::model::covered;
use crate::model::distinct_hashes;
use crate::model::filter_doc;
use crate::model::filter_prefix;
use crate::model::hash_seq;
use crate::model::is_subsequence;
use crate::model::lemma_filter_doc_identity;
use crate::model::window_count;
use crate::model::window_hash_at;
use crate::text::byte_project;

verus! {

/// A corpus in which no window hash is shared between two documents comes
/// through the transform unchanged.
pub proof fn lemma_no_shared_window_identity(docs: Seq<Seq<char>>, w: nat)
    requires
        corpus_duplicates(docs, w) == Set::<u64>::empty(),
    ensures
        clean_spec(docs, w) == docs,
{
    assert forall|d: int| 0 <= d < docs.len() implies clean_spec(docs, w)[d] == docs[d] by {
        lemma_filter_doc_identity(docs[d], w, corpus_duplicates(docs, w));
    }
    assert(clean_spec(docs, w) =~= docs);
}

/// A corpus of exactly one document is returned unchanged, whatever the
/// window width: with a single document no hash can occur in two documents.
pub proof fn lemma_single_document_unchanged(docs: Seq<Seq<char>>, w: nat)
    requires
        docs.len() == 1,
    ensures
        clean_spec(docs, w) == docs,
{
    assert(corpus_duplicates(docs, w) =~= Set::<u64>::empty()) by {
        assert forall|h: u64| !corpus_duplicates(docs, w).contains(h) by {
            if corpus_duplicates(docs, w).contains(h) {
                let (i, j) = choose|i: int, j: int|
                    0 <= i < j < docs.len() && #[trigger] distinct_hashes(docs[i], w).contains(h)
                        && #[trigger] distinct_hashes(docs[j], w).contains(h);
            }
        }
    }
    lemma_no_shared_window_identity(docs, w);
}

/// Running the transform a second time, with the same width, changes
/// nothing, provided the first pass's output shares no window hash between
/// two documents.  That proviso is exact: deletion can splice previously
/// distant text together, and where the spliced documents share a new window
/// of the given width a second pass deletes it too.
pub proof fn lemma_second_pass_identity(docs: Seq<Seq<char>>, w: nat)
    requires
        corpus_duplicates(clean_spec(docs, w), w) == Set::<u64>::empty(),
    ensures
        clean_spec(clean_spec(docs, w), w) == clean_spec(docs, w),
{
    lemma_no_shared_window_identity(clean_spec(docs, w), w);
}

/// Every filtered prefix is a subsequence of the text it came from.
proof fn lemma_filter_prefix_subsequence(s: Seq<char>, w: nat, dups: Set<u64>, n: int)
    requires
        0 <= n <= s.len(),
    ensures
        is_subsequence(filter_prefix(s, w, dups, n), s.subrange(0, n)),
    decreases n,
{
    if n == 0 {
        assert(filter_prefix(s, w, dups, 0) =~= Seq::<char>::empty());
    } else {
        lemma_filter_prefix_subsequence(s, w, dups, n - 1);
        let fp = filter_prefix(s, w, dups, n);
        let sub = s.subrange(0, n);
        assert(sub.drop_last() =~= s.subrange(0, n - 1));
        if covered(s, w, dups, n - 1) {
            assert(fp =~= filter_prefix(s, w, dups, n - 1));
            if fp.len() > 0 {
                assert(is_subsequence(fp, sub.drop_last()));
            }
        } else {
            assert(fp =~= filter_prefix(s, w, dups, n - 1).push(s[n - 1]));
            assert(fp.last() == sub.last());
            assert(fp.drop_last() =~= filter_prefix(s, w, dups, n - 1));
        }
    }
}

/// Every output document is a subsequence of the corresponding input: the
/// transform only deletes characters, and never inserts, reorders or
/// substitutes any.
pub proof fn lemma_output_subsequence(docs: Seq<Seq<char>>, w: nat, d: int)
    requires
        0 <= d < docs.len(),
    ensures
        is_subsequence(clean_spec(docs, w)[d], docs[d]),
{
    let s = docs[d];
    lemma_filter_prefix_subsequence(s, w, corpus_duplicates(docs, w), s.len() as int);
    assert(s.subrange(0, s.len() as int) =~= s);
}

/// No two windows of width `w` anywhere in the corpus hash alike without
/// having the same projected bytes.
pub open spec fn collision_free(docs: Seq<Seq<char>>, w: nat) -> bool {
    forall|d1: int, d2: int, j1: int, j2: int|
        0 <= d1 < docs.len() && 0 <= d2 < docs.len() && 0 <= j1 < window_count(docs[d1].len(), w)
            && 0 <= j2 < window_count(docs[d2].len(), w) && #[trigger] hash_seq(docs[d1], w)[j1]
            == #[trigger] hash_seq(docs[d2], w)[j2] ==> byte_project(docs[d1]).subrange(
            j1,
            j1 + w,
        ) == byte_project(docs[d2]).subrange(j2, j2 + w)
}

/// A slice of one of two equal subranges equals the matching slice of the
/// other.
proof fn lemma_subrange_transfer(
    a: Seq<u8>,
    b: Seq<u8>,
    j: int,
    q: int,
    w2: int,
    t: int,
    w1: int,
)
    requires
        0 <= j,
        0 <= q,
        0 <= w1 <= w2,
        j <= t,
        t + w1 <= j + w2,
        j + w2 <= a.len(),
        q + w2 <= b.len(),
        a.subrange(j, j + w2) == b.subrange(q, q + w2),
    ensures
        a.subrange(t, t + w1) == b.subrange(q + (t - j), q + (t - j) + w1),
{
    assert forall|x: int| t <= x < t + w1 implies #[trigger] a[x] == b[q + (x - j)] by {
        let idx = x - j;
        assert(0 <= idx < w2);
        assert(a.subrange(j, j + w2)[idx] == a[j + idx]);
        assert(b.subrange(q, q + w2)[idx] == b[q + idx]);
        assert(a[j + idx] == b[q + idx]);
    }
    assert(a.subrange(t, t + w1) =~= b.subrange(q + (t - j), q + (t - j) + w1));
}

/// A position covered at the larger width is covered at the smaller width
/// too, for a corpus without hash collisions at the larger width.
proof fn lemma_covered_at_larger_width(docs: Seq<Seq<char>>, w1: nat, w2: nat, d: int, p: int)
    requires
        1 <= w1 <= w2,
        collision_free(docs, w2),
        0 <= d < docs.len(),
        covered(docs[d], w2, corpus_duplicates(docs, w2), p),
    ensures
        covered(docs[d], w1, corpus_duplicates(docs, w1), p),
{
    let s = docs[d];
    let dups2 = corpus_duplicates(docs, w2);
    let j = choose|j: int|
        0 <= j < window_count(s.len(), w2) && #[trigger] dups2.contains(hash_seq(s, w2)[j]) && j
            <= p < j + w2;
    let h2 = hash_seq(s, w2)[j];
    assert(w2 <= s.len());
    let (da, db) = choose|da: int, db: int|
        0 <= da < db < docs.len() && #[trigger] distinct_hashes(docs[da], w2).contains(h2)
            && #[trigger] distinct_hashes(docs[db], w2).contains(h2);
    let e = if da != d {
        da
    } else {
        db
    };
    assert(e != d && 0 <= e < docs.len() && distinct_hashes(docs[e], w2).contains(h2));
    let q = choose|q: int|
        0 <= q < hash_seq(docs[e], w2).len() && hash_seq(docs[e], w2)[q] == h2;
    assert(hash_seq(docs[e], w2)[q] == hash_seq(s, w2)[j]);
    assert(byte_project(docs[e]).subrange(q, q + w2) == byte_project(s).subrange(j, j + w2));
    assert(w2 <= docs[e].len());

    // the sub-window of width w1 that covers p inside the shared window
    let t = if p <= j + w2 - w1 {
        p
    } else {
        j + w2 - w1
    };
    assert(j <= t <= p < t + w1);
    assert(t + w1 <= j + w2);
    let u = q + (t - j);
    lemma_subrange_transfer(byte_project(s), byte_project(docs[e]), j, q, w2 as int, t, w1 as int);
    assert(byte_project(s).subrange(t, t + w1) == byte_project(docs[e]).subrange(u, u + w1));

    let h1 = hash_seq(s, w1)[t];
    assert(0 <= t < window_count(s.len(), w1));
    assert(h1 == window_hash_at(byte_project(s), w1, t));
    assert(0 <= u < window_count(docs[e].len(), w1));
    assert(hash_seq(docs[e], w1)[u] == window_hash_at(byte_project(docs[e]), w1, u));
    assert(hash_seq(docs[e], w1)[u] == h1);

    assert(distinct_hashes(s, w1).contains(h1)) by {
        assert(hash_seq(s, w1)[t] == h1);
    }
    assert(distinct_hashes(docs[e], w1).contains(h1)) by {
        assert(hash_seq(docs[e], w1)[u] == h1);
    }
    let lo = if d < e {
        d
    } else {
        e
    };
    let hi = if d < e {
        e
    } else {
        d
    };
    assert(0 <= lo < hi < docs.len() && distinct_hashes(docs[lo], w1).contains(h1)
        && distinct_hashes(docs[hi], w1).contains(h1));
    assert(corpus_duplicates(docs, w1).contains(h1));
    assert(covered(s, w1, corpus_duplicates(docs, w1), p)) by {
        assert(corpus_duplicates(docs, w1).contains(hash_seq(s, w1)[t]) && t <= p < t + w1);
    }
}

/// If every position deleted by one pass is also deleted by another, the
/// first pass keeps at least as many characters.
proof fn lemma_filter_prefix_len_ordered(
    s: Seq<char>,
    w1: nat,
    dups1: Set<u64>,
    w2: nat,
    dups2: Set<u64>,
    n: int,
)
    requires
        0 <= n <= s.len(),
        forall|p: int| 0 <= p < s.len() && covered(s, w2, dups2, p) ==> covered(s, w1, dups1, p),
    ensures
        filter_prefix(s, w2, dups2, n).len() >= filter_prefix(s, w1, dups1, n).len(),
    decreases n,
{
    if n > 0 {
        lemma_filter_prefix_len_ordered(s, w1, dups1, w2, dups2, n - 1);
    }
}

/// Raising the width threshold never removes more: every position deleted at
/// the larger width is deleted at the smaller one too, so the output at the
/// larger width keeps at least as many characters.  The corpus must be free
/// of hash collisions among its windows of the larger width: two colliding
/// windows with different text could flag a span at the larger width whose
/// pieces no smaller-width pass would flag.
pub proof fn lemma_threshold_monotonic(docs: Seq<Seq<char>>, w1: nat, w2: nat, d: int)
    requires
        1 <= w1 <= w2,
        collision_free(docs, w2),
        0 <= d < docs.len(),
    ensures
        forall|p: int|
            covered(docs[d], w2, corpus_duplicates(docs, w2), p) ==> covered(
                docs[d],
                w1,
                corpus_duplicates(docs, w1),
                p,
            ),
        clean_spec(docs, w2)[d].len() >= clean_spec(docs, w1)[d].len(),
{
    assert forall|p: int|
        covered(docs[d], w2, corpus_duplicates(docs, w2), p) implies covered(
        docs[d],
        w1,
        corpus_duplicates(docs, w1),
        p,
    ) by {
        lemma_covered_at_larger_width(docs, w1, w2, d, p);
    }
    lemma_filter_prefix_len_ordered(
        docs[d],
        w1,
        corpus_duplicates(docs, w1),
        w2,
        corpus_duplicates(docs, w2),
        docs[d].len() as int,
    );
}

} // verus!
