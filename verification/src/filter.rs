//! Deletion of every byte window carrying a forbidden fingerprint, and the
//! round-by-round driver that removes shared substrings until no more are
//! found.  Which windows match depends on the per-process fingerprint keys,
//! so the contracts say what every possible output looks like: a text with
//! some disjoint spans of the given length removed, re-checked as UTF-8.

use vstd::prelude::*;

use vstd::utf8::decode_utf8;
use vstd::utf8::valid_utf8;

use crate::byte_sliceable_trait::ByteSliceable;
use crate::hashing::fingerprint64;
use crate::optimizer::length_and_hash_of_shared_substring;
use crate::text::bytes_to_string;

verus! {

/// How many filtering rounds are attempted before the batch is returned as
/// it stands.
pub const MAX_LOOP: u32 = u32::MAX;

/// `out` is what a left-to-right scan of the first `i` bytes of `b` can
/// produce: at each position the scan either keeps the byte or, where at
/// least `len` bytes remain behind it, skips a whole span of `len` bytes.
pub open spec fn scan_rel(b: Seq<u8>, len: nat, i: int, out: Seq<u8>) -> bool
    decreases i,
{
    if i <= 0 {
        out == Seq::<u8>::empty()
    } else {
        (out.len() > 0 && out.last() == b[i - 1] && scan_rel(b, len, i - 1, out.drop_last())) || (
        len >= 1 && i >= len && scan_rel(b, len, i - len, out))
    }
}

/// `out` is `b` with some set of disjoint spans of `len` bytes deleted.
pub open spec fn spans_removed(b: Seq<u8>, len: nat, out: Seq<u8>) -> bool {
    scan_rel(b, len, b.len() as int, out)
}

/// What filtering a text against one forbidden fingerprint can return: some
/// spans of the given length are deleted, and the remainder is the result if
/// and only if it is still valid UTF-8.
pub open spec fn filter_outcome(b: Seq<u8>, len: nat, r: Option<Seq<char>>) -> bool {
    exists|mid: Seq<u8>|
        #[trigger] spans_removed(b, len, mid) && (match r {
            Some(sv) => valid_utf8(mid) && sv == decode_utf8(mid),
            None => !valid_utf8(mid),
        })
}

/// A scan that keeps every byte of a further stretch extends the relation.
proof fn lemma_scan_rel_extend_keep(b: Seq<u8>, len: nat, i: int, j: int, out: Seq<u8>)
    requires
        0 <= i <= j <= b.len(),
        scan_rel(b, len, i, out),
    ensures
        scan_rel(b, len, j, out + b.subrange(i, j)),
    decreases j - i,
{
    if i == j {
        assert(out + b.subrange(i, j) =~= out);
    } else {
        lemma_scan_rel_extend_keep(b, len, i, j - 1, out);
        let prev = out + b.subrange(i, j - 1);
        let cur = out + b.subrange(i, j);
        assert(cur.drop_last() =~= prev);
        assert(cur.last() == b[j - 1]);
    }
}

/// Deletes every span of `length` bytes whose fingerprint equals the
/// forbidden one, scanning left to right and skipping whole spans, then
/// re-checks the remainder as UTF-8.  A window width of zero, or one longer
/// than the text, leaves the bytes untouched.
pub fn filter_forbidden_hash_single<T: ByteSliceable>(
    text: &T,
    length: usize,
    forbidden_hash: u64,
) -> (r: Option<String>)
    ensures
        filter_outcome(
            text.byte_view(),
            length as nat,
            match r {
                Some(s) => Some(s@),
                None => None,
            },
        ),
        (length == 0 || text.byte_view().len() < length) ==> (match r {
            Some(s) => valid_utf8(text.byte_view()) && s@ == decode_utf8(text.byte_view()),
            None => !valid_utf8(text.byte_view()),
        }),
{
    let ghost b = text.byte_view();
    let ghost len_nat = length as nat;
    let bytes = text.as_bytes();
    let n = bytes.len();

    if length == 0 || n < length {
        let owned = vstd::slice::slice_to_vec(bytes);
        let r = bytes_to_string(owned);
        proof {
            lemma_scan_rel_extend_keep(b, len_nat, 0, b.len() as int, Seq::<u8>::empty());
            assert(Seq::<u8>::empty() + b.subrange(0, b.len() as int) =~= b);
            assert(spans_removed(b, len_nat, b));
        }
        return r;
    }

    let mut result: Vec<u8> = Vec::new();
    let last = n - length;
    let mut i: usize = 0;
    while i <= last
        invariant
            b == text.byte_view(),
            bytes@ == b,
            n == b.len(),
            len_nat == length as nat,
            1 <= length <= n,
            last == n - length,
            0 <= i <= n,
            scan_rel(b, len_nat, i as int, result@),
        decreases n - i,
    {
        let window = vstd::slice::slice_subrange(bytes, i, i + length);
        let fingerprint = fingerprint64(window);
        if fingerprint == forbidden_hash {
            proof {
                assert(i + length >= length && (i + length) - length == i as int);
            }
            i = i + length;
        } else {
            let ghost before = result@;
            result.push(bytes[i]);
            proof {
                assert(result@.drop_last() =~= before);
                assert(result@.last() == b[i as int]);
            }
            i = i + 1;
        }
    }
    while i < n
        invariant
            b == text.byte_view(),
            bytes@ == b,
            n == b.len(),
            len_nat == length as nat,
            0 <= i <= n,
            scan_rel(b, len_nat, i as int, result@),
        decreases n - i,
    {
        let ghost before = result@;
        result.push(bytes[i]);
        proof {
            assert(result@.drop_last() =~= before);
            assert(result@.last() == b[i as int]);
        }
        i = i + 1;
    }
    let ghost mid = result@;
    let r = bytes_to_string(result);
    proof {
        assert(spans_removed(b, len_nat, mid));
    }
    r
}

/// Filters every text of the batch against the same forbidden fingerprint.
/// The whole batch succeeds, in order, or the first text whose remainder is
/// no longer valid UTF-8 fails the call.
pub fn filter_forbidden_hash_multiple<T: ByteSliceable>(
    collected_text: Vec<T>,
    length: usize,
    forbidden_hash: u64,
) -> (r: Option<Vec<String>>)
    ensures
        match r {
            Some(v) => v@.len() == collected_text@.len() && forall|i: int|
                0 <= i < v@.len() ==> filter_outcome(
                    (#[trigger] collected_text@[i]).byte_view(),
                    length as nat,
                    Some(v@[i]@),
                ),
            None => exists|i: int|
                0 <= i < collected_text@.len() && filter_outcome(
                    (#[trigger] collected_text@[i]).byte_view(),
                    length as nat,
                    None::<Seq<char>>,
                ),
        },
{
    let mut out: Vec<String> = Vec::new();
    let n = collected_text.len();
    let mut i: usize = 0;
    while i < n
        invariant
            n == collected_text@.len(),
            0 <= i <= n,
            out@.len() == i,
            forall|j: int|
                0 <= j < i ==> filter_outcome(
                    (#[trigger] collected_text@[j]).byte_view(),
                    length as nat,
                    Some(out@[j]@),
                ),
        decreases n - i,
    {
        match filter_forbidden_hash_single(&collected_text[i], length, forbidden_hash) {
            Some(s) => {
                out.push(s);
            },
            None => {
                return None;
            },
        }
        i = i + 1;
    }
    Some(out)
}

/// Removes shared substrings round by round: find the length and fingerprint
/// of the longest substring still shared by two texts, delete its
/// occurrences everywhere, and repeat until no shared substring of at least
/// the minimum length remains.  A successful result keeps the batch's length
/// and order; the call fails if a deletion ever cuts a text off a character
/// boundary.
pub fn remove_substrings(string_vector: Vec<String>, minimum_size: usize) -> (r: Option<
    Vec<String>,
>)
    requires
        minimum_size < usize::MAX,
    ensures
        r matches Some(v) ==> v@.len() == string_vector@.len(),
{
    let length_and_hash = length_and_hash_of_shared_substring(
        minimum_size,
        None,
        string_vector.as_slice(),
    );

    if let Some((length, forbidden_hash)) = length_and_hash {
        let mut inner_vector: Vec<String>;
        match filter_forbidden_hash_multiple(string_vector, length, forbidden_hash) {
            Some(v) => {
                inner_vector = v;
            },
            None => {
                return None;
            },
        }
        let mut round: u32 = 0;
        while round < MAX_LOOP
            invariant
                inner_vector@.len() == string_vector@.len(),
                minimum_size <= length < usize::MAX,
            decreases MAX_LOOP - round,
        {
            let inner_length_and_hash = length_and_hash_of_shared_substring(
                minimum_size,
                Some(length),
                inner_vector.as_slice(),
            );
            if let Some((inner_length, inner_forbidden_hash)) = inner_length_and_hash {
                match filter_forbidden_hash_multiple(
                    inner_vector,
                    inner_length,
                    inner_forbidden_hash,
                ) {
                    Some(v) => {
                        inner_vector = v;
                    },
                    None => {
                        return None;
                    },
                }
            } else {
                return Some(inner_vector);
            }
            round = round + 1;
        }
        Some(inner_vector)
    } else {
        Some(string_vector)
    }
}

} // verus!
