//! Shared-span removal by direct character comparison: scan two texts for a
//! run of equal characters and cut such runs out of the left text.  This
//! brute-force variant uses no hashing, so its contracts speak of the
//! characters themselves.

use vstd::prelude::*;

use crate::model::is_subsequence;
use crate::model::lemma_is_subsequence_refl;
use crate::model::lemma_is_subsequence_trans;
use crate::model::lemma_remove_range_is_subsequence;
use crate::model::seq_views;
use crate::text::chars_of_string;
use crate::text::string_of_chars;

verus! {

/// How many consecutive characters of `a` starting at `ia` equal those of
/// `b` starting at `ib`.
pub open spec fn match_len(a: Seq<char>, b: Seq<char>, ia: int, ib: int) -> nat
    decreases a.len() - ia,
{
    if 0 <= ia < a.len() && 0 <= ib < b.len() && a[ia] == b[ib] {
        (1 + match_len(a, b, ia + 1, ib + 1)) as nat
    } else {
        0
    }
}

/// A matching run stays inside both texts, and the two runs read the same.
proof fn lemma_match_len_bounds(a: Seq<char>, b: Seq<char>, ia: int, ib: int)
    requires
        0 <= ia <= a.len(),
        0 <= ib <= b.len(),
    ensures
        ia + match_len(a, b, ia, ib) <= a.len(),
        ib + match_len(a, b, ia, ib) <= b.len(),
        a.subrange(ia, ia + match_len(a, b, ia, ib)) == b.subrange(
            ib,
            ib + match_len(a, b, ia, ib),
        ),
    decreases a.len() - ia,
{
    let ml = match_len(a, b, ia, ib) as int;
    if 0 <= ia < a.len() && 0 <= ib < b.len() && a[ia] == b[ib] {
        lemma_match_len_bounds(a, b, ia + 1, ib + 1);
        let sa = a.subrange(ia, ia + ml);
        let sb = b.subrange(ib, ib + ml);
        let ta = a.subrange(ia + 1, ia + ml);
        let tb = b.subrange(ib + 1, ib + ml);
        assert forall|x: int| 0 <= x < ml implies #[trigger] sa[x] == sb[x] by {
            if x > 0 {
                assert(ta[x - 1] == tb[x - 1]);
            }
        }
        assert(sa =~= sb);
    } else {
        assert(a.subrange(ia, ia + ml) =~= b.subrange(ib, ib + ml));
    }
}

/// Counts the matching run at one pair of start positions.
fn scan_match(chars_a: &Vec<char>, chars_b: &Vec<char>, ia: usize, ib: usize) -> (n: usize)
    requires
        ia <= chars_a@.len(),
        ib <= chars_b@.len(),
    ensures
        n == match_len(chars_a@, chars_b@, ia as int, ib as int),
        ia + n <= chars_a@.len(),
        ib + n <= chars_b@.len(),
{
    let a_len = chars_a.len();
    let b_len = chars_b.len();
    let mut n: usize = 0;
    while ia + n < a_len && ib + n < b_len && chars_a[ia + n] == chars_b[ib + n]
        invariant
            ia <= chars_a@.len(),
            ib <= chars_b@.len(),
            a_len == chars_a@.len(),
            b_len == chars_b@.len(),
            ia + n <= a_len,
            ib + n <= b_len,
            match_len(chars_a@, chars_b@, ia as int, ib as int) == n + match_len(
                chars_a@,
                chars_b@,
                ia + n,
                ib + n,
            ),
        decreases a_len - (ia + n),
    {
        n = n + 1;
    }
    proof {
        assert(match_len(chars_a@, chars_b@, ia + n, ib + n) == 0);
    }
    n
}

/// The characters outside `from .. to`, in order.
fn remove_char_range(chars: Vec<char>, from: usize, to: usize) -> (r: Vec<char>)
    requires
        from <= to <= chars@.len(),
    ensures
        r@ == chars@.subrange(0, from as int) + chars@.subrange(
            to as int,
            chars@.len() as int,
        ),
{
    let mut r: Vec<char> = Vec::new();
    let n = chars.len();
    let mut p: usize = 0;
    while p < from
        invariant
            from <= to <= n == chars@.len(),
            0 <= p <= from,
            r@ == chars@.subrange(0, p as int),
        decreases from - p,
    {
        r.push(chars[p]);
        proof {
            assert(r@ =~= chars@.subrange(0, p + 1));
        }
        p = p + 1;
    }
    let mut q: usize = to;
    while q < n
        invariant
            from <= to <= n == chars@.len(),
            to <= q <= n,
            r@ == chars@.subrange(0, from as int) + chars@.subrange(to as int, q as int),
        decreases n - q,
    {
        r.push(chars[q]);
        proof {
            assert(r@ =~= chars@.subrange(0, from as int) + chars@.subrange(to as int, q + 1));
        }
        q = q + 1;
    }
    r
}

/// The sequence `s` occurs in `t` starting at position `i`.
pub open spec fn occurs_at(s: Seq<char>, t: Seq<char>, i: int) -> bool {
    0 <= i && i + s.len() <= t.len() && s == t.subrange(i, i + s.len() as int)
}

/// The first run of more than `minimum_size` equal characters found between
/// the two texts, scanning every pair of start positions; the empty string
/// if no such run exists.  A non-empty result occurs, with its full length,
/// in both texts.
pub fn get_largest_overlapping_sub_string(
    string_a: &String,
    string_b: &String,
    minimum_size: usize,
) -> (r: String)
    ensures
        r@.len() == 0 || r@.len() > minimum_size,
        r@.len() > 0 ==> exists|ia: int, ib: int|
            #[trigger] occurs_at(r@, string_a@, ia) && #[trigger] occurs_at(r@, string_b@, ib),
        r@.len() == 0 ==> forall|ia: int, ib: int|
            0 <= ia < string_a@.len() - minimum_size && 0 <= ib < string_b@.len() - minimum_size
                ==> #[trigger] match_len(string_a@, string_b@, ia, ib) <= minimum_size,
{
    let chars_a = chars_of_string(string_a.as_str());
    let chars_b = chars_of_string(string_b.as_str());

    let a_bound = if chars_a.len() >= minimum_size {
        chars_a.len() - minimum_size
    } else {
        0
    };
    let b_bound = if chars_b.len() >= minimum_size {
        chars_b.len() - minimum_size
    } else {
        0
    };

    let mut id_a: usize = 0;
    while id_a < a_bound
        invariant
            chars_a@ == string_a@,
            chars_b@ == string_b@,
            a_bound <= chars_a@.len(),
            b_bound <= chars_b@.len(),
            a_bound == if chars_a@.len() >= minimum_size {
                chars_a@.len() - minimum_size
            } else {
                0
            },
            b_bound == if chars_b@.len() >= minimum_size {
                chars_b@.len() - minimum_size
            } else {
                0
            },
            0 <= id_a <= a_bound,
            forall|ia: int, ib: int|
                0 <= ia < id_a && 0 <= ib < b_bound ==> #[trigger] match_len(
                    string_a@,
                    string_b@,
                    ia,
                    ib,
                ) <= minimum_size,
        decreases a_bound - id_a,
    {
        let mut id_b: usize = 0;
        while id_b < b_bound
            invariant
                chars_a@ == string_a@,
                chars_b@ == string_b@,
                a_bound <= chars_a@.len(),
                b_bound <= chars_b@.len(),
                0 <= id_a < a_bound,
                0 <= id_b <= b_bound,
                forall|ia: int, ib: int|
                    0 <= ia < id_a && 0 <= ib < b_bound ==> #[trigger] match_len(
                        string_a@,
                        string_b@,
                        ia,
                        ib,
                    ) <= minimum_size,
                forall|ib: int|
                    0 <= ib < id_b ==> #[trigger] match_len(string_a@, string_b@, id_a as int, ib)
                        <= minimum_size,
            decreases b_bound - id_b,
        {
            let id_scan = scan_match(&chars_a, &chars_b, id_a, id_b);
            if id_scan > minimum_size {
                let mut found: Vec<char> = Vec::new();
                let total = chars_a.len();
                proof {
                    assert(id_a + id_scan <= total);
                }
                let scan_end = id_a + id_scan;
                let mut p = id_a;
                while p < scan_end
                    invariant
                        chars_a@ == string_a@,
                        scan_end == id_a + id_scan,
                        scan_end <= chars_a@.len(),
                        id_a <= p <= scan_end,
                        found@ == chars_a@.subrange(id_a as int, p as int),
                    decreases scan_end - p,
                {
                    found.push(chars_a[p]);
                    proof {
                        assert(found@ =~= chars_a@.subrange(id_a as int, p + 1));
                    }
                    p = p + 1;
                }
                proof {
                    lemma_match_len_bounds(string_a@, string_b@, id_a as int, id_b as int);
                    assert(found@ =~= string_a@.subrange(id_a as int, id_a + id_scan));
                    assert(found@ == string_b@.subrange(id_b as int, id_b + id_scan));
                    assert(occurs_at(found@, string_a@, id_a as int));
                    assert(occurs_at(found@, string_b@, id_b as int));
                }
                return string_of_chars(&found);
            }
            id_b = id_b + 1;
        }
        id_a = id_a + 1;
    }
    let empty = String::new();
    proof {
        assert(empty@.len() == 0);
    }
    empty
}

/// Cuts, out of the left text, every run of at least `minimum_size`
/// characters that also occurs in the right text, re-scanning the shrinking
/// left text from each original start position.  The result is always a
/// subsequence of the left text, and a left text sharing no such run with
/// the right text comes back unchanged.
pub fn remove_overlap_from_left_string(
    string_a: String,
    string_b: &String,
    minimum_size: usize,
) -> (r: String)
    ensures
        is_subsequence(r@, string_a@),
        (forall|ia: int, ib: int|
            0 <= ia < string_a@.len() - minimum_size && 0 <= ib < string_b@.len() - minimum_size
                ==> match_len(string_a@, string_b@, ia, ib) < minimum_size) ==> r@ == string_a@,
{
    let ghost original = string_a@;
    let ghost all_small = forall|ia: int, ib: int|
        0 <= ia < string_a@.len() - minimum_size && 0 <= ib < string_b@.len() - minimum_size
            ==> match_len(string_a@, string_b@, ia, ib) < minimum_size;

    let mut chars_a = chars_of_string(string_a.as_str());
    let chars_b = chars_of_string(string_b.as_str());

    let a_bound = if chars_a.len() >= minimum_size {
        chars_a.len() - minimum_size
    } else {
        0
    };
    let b_bound = if chars_b.len() >= minimum_size {
        chars_b.len() - minimum_size
    } else {
        0
    };

    proof {
        lemma_is_subsequence_refl(original);
    }

    let mut id_a: usize = 0;
    while id_a < a_bound
        invariant
            chars_b@ == string_b@,
            a_bound <= original.len(),
            a_bound == if original.len() >= minimum_size {
                original.len() - minimum_size
            } else {
                0
            },
            b_bound == if string_b@.len() >= minimum_size {
                string_b@.len() - minimum_size
            } else {
                0
            },
            0 <= id_a <= a_bound,
            is_subsequence(chars_a@, original),
            all_small == (forall|ia: int, ib: int|
                0 <= ia < original.len() - minimum_size && 0 <= ib < string_b@.len()
                    - minimum_size ==> match_len(original, string_b@, ia, ib) < minimum_size),
            all_small ==> chars_a@ == original,
        decreases a_bound - id_a,
    {
        let mut id_b: usize = 0;
        while id_b < b_bound
            invariant
                chars_b@ == string_b@,
                a_bound <= original.len(),
                a_bound == if original.len() >= minimum_size {
                    original.len() - minimum_size
                } else {
                    0
                },
                b_bound == if string_b@.len() >= minimum_size {
                    string_b@.len() - minimum_size
                } else {
                    0
                },
                0 <= id_a < a_bound,
                0 <= id_b <= b_bound,
                is_subsequence(chars_a@, original),
                all_small == (forall|ia: int, ib: int|
                    0 <= ia < original.len() - minimum_size && 0 <= ib < string_b@.len()
                        - minimum_size ==> match_len(original, string_b@, ia, ib) < minimum_size),
                all_small ==> chars_a@ == original,
            decreases b_bound - id_b,
        {
            if id_a <= chars_a.len() {
                let id_scan = scan_match(&chars_a, &chars_b, id_a, id_b);
                if id_scan >= minimum_size && id_scan > 0 {
                    let ghost before = chars_a@;
                    chars_a = remove_char_range(chars_a, id_a, id_a + id_scan);
                    proof {
                        lemma_remove_range_is_subsequence(
                            before,
                            id_a as int,
                            id_a + id_scan,
                        );
                        lemma_is_subsequence_trans(chars_a@, before, original);
                        if all_small {
                            assert(match_len(original, string_b@, id_a as int, id_b as int)
                                < minimum_size);
                            assert(false);
                        }
                    }
                }
            }
            id_b = id_b + 1;
        }
        id_a = id_a + 1;
    }
    let r = string_of_chars(&chars_a);
    r
}

/// Removes, from every text of the batch, each run of at least
/// `minimum_size` characters that also occurs in another text of the batch.
/// Every output is a subsequence of its input, the batch's length and order
/// are kept, and a batch of at most one text is returned as it stands.
pub fn clean_vector_of_strings(vector_strings: Vec<String>, minimum_size: usize) -> (r: Vec<
    String,
>)
    ensures
        r@.len() == vector_strings@.len(),
        forall|i: int|
            0 <= i < r@.len() ==> is_subsequence(#[trigger] r@[i]@, vector_strings@[i]@),
        vector_strings@.len() <= 1 ==> seq_views(r@) == seq_views(vector_strings@),
{
    let ghost originals = vector_strings@;
    let mut vector_strings = vector_strings;
    let n = vector_strings.len();
    proof {
        assert forall|i: int| 0 <= i < n implies is_subsequence(
            #[trigger] vector_strings@[i]@,
            originals[i]@,
        ) by {
            lemma_is_subsequence_refl(originals[i]@);
        }
    }
    let mut i: usize = 0;
    while i < n
        invariant
            n == vector_strings@.len(),
            originals.len() == n,
            0 <= i <= n,
            forall|k: int|
                0 <= k < n ==> is_subsequence(#[trigger] vector_strings@[k]@, originals[k]@),
            n <= 1 ==> vector_strings@ == originals,
        decreases n - i,
    {
        let mut j: usize = 0;
        while j < n
            invariant
                n == vector_strings@.len(),
                originals.len() == n,
                0 <= i < n,
                0 <= j <= n,
                forall|k: int|
                    0 <= k < n ==> is_subsequence(#[trigger] vector_strings@[k]@, originals[k]@),
                n <= 1 ==> vector_strings@ == originals,
            decreases n - j,
        {
            if i != j {
                let cleaned = remove_overlap_from_left_string(
                    vector_strings[i].clone(),
                    &vector_strings[j],
                    minimum_size,
                );
                proof {
                    lemma_is_subsequence_trans(cleaned@, vector_strings@[i as int]@, originals[i as int]@);
                }
                vector_strings.set(i, cleaned);
            }
            j = j + 1;
        }
        i = i + 1;
    }
    proof {
        if n <= 1 {
            assert(seq_views(vector_strings@) =~= seq_views(originals));
        }
    }
    vector_strings
}

} // verus!
