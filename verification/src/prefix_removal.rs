//! Shared-prefix removal that keeps one copy: each text, in turn, loses the
//! longest prefix it shares with some other text of the batch, so the last
//! holder of a prefix keeps it and no information is lost outright.

use vstd::prelude::*;

use crate::model::seq_views;
use crate::text::chars_of_string;
use crate::text::string_of_chars;

verus! {

/// The two texts are both long enough and agree on their first `min`
/// characters.
pub open spec fn shares_min_prefix(a: Seq<char>, b: Seq<char>, min: nat) -> bool {
    min <= a.len() && min <= b.len() && a.subrange(0, min as int) == b.subrange(0, min as int)
}

/// `a` is a suffix of `b`.
pub open spec fn is_suffix_of(a: Seq<char>, b: Seq<char>) -> bool {
    a.len() <= b.len() && a == b.subrange(b.len() - a.len(), b.len() as int)
}

/// Texts that agree on a prefix agree on any shorter prefix.
proof fn lemma_prefix_shrink(a: Seq<char>, b: Seq<char>, p: int, m: int)
    requires
        0 <= m <= p,
        p <= a.len(),
        p <= b.len(),
        a.subrange(0, p) == b.subrange(0, p),
    ensures
        a.subrange(0, m) == b.subrange(0, m),
{
    let sa = a.subrange(0, m);
    let sb = b.subrange(0, m);
    assert forall|x: int| 0 <= x < m implies #[trigger] sa[x] == sb[x] by {
        assert(a.subrange(0, p)[x] == b.subrange(0, p)[x]);
    }
    assert(sa =~= sb);
}

/// Does `other` start with the first `plen` characters of `change`?
fn starts_with_prefix(other: &Vec<char>, change: &Vec<char>, plen: usize) -> (r: bool)
    requires
        plen <= change@.len(),
    ensures
        r == (plen <= other@.len() && other@.subrange(0, plen as int) == change@.subrange(
            0,
            plen as int,
        )),
{
    if other.len() < plen {
        return false;
    }
    let mut x: usize = 0;
    while x < plen
        invariant
            plen <= change@.len(),
            plen <= other@.len(),
            0 <= x <= plen,
            forall|q: int| 0 <= q < x ==> other@[q] == change@[q],
        decreases plen - x,
    {
        if other[x] != change[x] {
            proof {
                assert(other@.subrange(0, plen as int)[x as int] != change@.subrange(
                    0,
                    plen as int,
                )[x as int]);
            }
            return false;
        }
        x = x + 1;
    }
    proof {
        assert(other@.subrange(0, plen as int) =~= change@.subrange(0, plen as int));
    }
    true
}

/// Trims, from each text in turn, the longest prefix of at least
/// `minimum_size` characters that some other text of the batch (as it then
/// stands) also starts with, keeping one character less than the first
/// mismatch.  Every output is a suffix of its input, the batch's length and
/// order are kept, and a batch in which no two texts share a prefix of
/// `minimum_size` characters is returned as it stands.
pub fn remove_shared_prefix(compare_strings: Vec<String>, minimum_size: usize) -> (r: Vec<String>)
    requires
        minimum_size < usize::MAX,
    ensures
        r@.len() == compare_strings@.len(),
        forall|i: int| 0 <= i < r@.len() ==> is_suffix_of(#[trigger] r@[i]@, compare_strings@[i]@),
        (forall|i: int, j: int|
            0 <= i < compare_strings@.len() && 0 <= j < compare_strings@.len() && i != j
                ==> !shares_min_prefix(
                compare_strings@[i]@,
                compare_strings@[j]@,
                minimum_size as nat,
            )) ==> seq_views(r@) == seq_views(compare_strings@),
{
    let ghost originals = compare_strings@;
    let ghost lonely = forall|i: int, j: int|
        0 <= i < originals.len() && 0 <= j < originals.len() && i != j ==> !shares_min_prefix(
            originals[i]@,
            originals[j]@,
            minimum_size as nat,
        );
    let mut strings = compare_strings;
    let n = strings.len();

    proof {
        assert forall|k: int| 0 <= k < n implies is_suffix_of(
            #[trigger] strings@[k]@,
            originals[k]@,
        ) by {
            assert(strings@[k]@ =~= originals[k]@.subrange(0, originals[k]@.len() as int));
        }
    }

    let mut outer_index: usize = 0;
    while outer_index < n
        invariant
            n == strings@.len(),
            originals.len() == n,
            minimum_size < usize::MAX,
            0 <= outer_index <= n,
            forall|k: int| 0 <= k < n ==> is_suffix_of(#[trigger] strings@[k]@, originals[k]@),
            lonely == (forall|i: int, j: int|
                0 <= i < originals.len() && 0 <= j < originals.len() && i != j
                    ==> !shares_min_prefix(originals[i]@, originals[j]@, minimum_size as nat)),
            lonely ==> (forall|k: int| 0 <= k < n ==> #[trigger] strings@[k]@ == originals[k]@),
        decreases n - outer_index,
    {
        let change_chars = chars_of_string(strings[outer_index].as_str());
        let change_len = change_chars.len();

        if minimum_size <= change_len {
            let mut size_of_overlap: usize = 0;
            let mut prefix_len: usize = minimum_size;

            let mut inner_index: usize = 0;
            while inner_index < n
                invariant
                    n == strings@.len(),
                    originals.len() == n,
                    minimum_size < usize::MAX,
                    0 <= outer_index < n,
                    0 <= inner_index <= n,
                    change_chars@ == strings@[outer_index as int]@,
                    change_len == change_chars@.len(),
                    minimum_size <= change_len,
                    minimum_size <= prefix_len,
                    size_of_overlap <= change_len + 1,
                    prefix_len <= change_len + 1,
                    forall|k: int|
                        0 <= k < n ==> is_suffix_of(#[trigger] strings@[k]@, originals[k]@),
                    lonely == (forall|i: int, j: int|
                        0 <= i < originals.len() && 0 <= j < originals.len() && i != j
                            ==> !shares_min_prefix(
                            originals[i]@,
                            originals[j]@,
                            minimum_size as nat,
                        )),
                    lonely ==> (forall|k: int|
                        0 <= k < n ==> #[trigger] strings@[k]@ == originals[k]@),
                    lonely ==> size_of_overlap == 0,
                decreases n - inner_index,
            {
                if inner_index != outer_index {
                    let other_chars = chars_of_string(strings[inner_index].as_str());
                    if minimum_size <= other_chars.len() {
                        while prefix_len <= change_len && size_of_overlap < change_len
                            && starts_with_prefix(&other_chars, &change_chars, prefix_len)
                            invariant
                                n == strings@.len(),
                                originals.len() == n,
                                minimum_size < usize::MAX,
                                0 <= outer_index < n,
                                0 <= inner_index < n,
                                inner_index != outer_index,
                                change_chars@ == strings@[outer_index as int]@,
                                other_chars@ == strings@[inner_index as int]@,
                                change_len == change_chars@.len(),
                                minimum_size <= change_len,
                                minimum_size <= prefix_len,
                                size_of_overlap <= change_len + 1,
                                prefix_len <= change_len + 1,
                                lonely == (forall|i: int, j: int|
                                    0 <= i < originals.len() && 0 <= j < originals.len() && i != j
                                        ==> !shares_min_prefix(
                                        originals[i]@,
                                        originals[j]@,
                                        minimum_size as nat,
                                    )),
                                lonely ==> (forall|k: int|
                                    0 <= k < n ==> #[trigger] strings@[k]@ == originals[k]@),
                                lonely ==> size_of_overlap == 0,
                            decreases change_len + 1 - size_of_overlap,
                        {
                            proof {
                                if lonely {
                                    assert(strings@[outer_index as int]@
                                        == originals[outer_index as int]@);
                                    assert(strings@[inner_index as int]@
                                        == originals[inner_index as int]@);
                                    lemma_prefix_shrink(
                                        other_chars@,
                                        change_chars@,
                                        prefix_len as int,
                                        minimum_size as int,
                                    );
                                    assert(shares_min_prefix(
                                        originals[outer_index as int]@,
                                        originals[inner_index as int]@,
                                        minimum_size as nat,
                                    ));
                                    assert(false);
                                }
                            }
                            let base = if size_of_overlap > minimum_size {
                                size_of_overlap
                            } else {
                                minimum_size
                            };
                            size_of_overlap = base + 1;
                            prefix_len = size_of_overlap;
                        }
                    }
                }
                inner_index = inner_index + 1;
            }

            if size_of_overlap > 1 {
                let cut = size_of_overlap - 1;
                let cut = if cut <= change_len {
                    cut
                } else {
                    change_len
                };
                let mut kept: Vec<char> = Vec::new();
                let mut p = cut;
                while p < change_len
                    invariant
                        change_len == change_chars@.len(),
                        cut <= p <= change_len,
                        kept@ == change_chars@.subrange(cut as int, p as int),
                    decreases change_len - p,
                {
                    kept.push(change_chars[p]);
                    proof {
                        assert(kept@ =~= change_chars@.subrange(cut as int, p + 1));
                    }
                    p = p + 1;
                }
                let trimmed = string_of_chars(&kept);
                proof {
                    let old_view = strings@[outer_index as int]@;
                    assert(is_suffix_of(trimmed@, old_view)) by {
                        assert(trimmed@ =~= old_view.subrange(
                            old_view.len() - trimmed@.len(),
                            old_view.len() as int,
                        ));
                    }
                    assert(is_suffix_of(old_view, originals[outer_index as int]@));
                    let orig_view = originals[outer_index as int]@;
                    assert(is_suffix_of(trimmed@, orig_view)) by {
                        assert(trimmed@ =~= orig_view.subrange(
                            orig_view.len() - trimmed@.len(),
                            orig_view.len() as int,
                        ));
                    }
                }
                strings.set(outer_index, trimmed);
            }
        }
        outer_index = outer_index + 1;
    }
    proof {
        if lonely {
            assert(seq_views(strings@) =~= seq_views(originals));
        }
        assert forall|i: int| 0 <= i < n implies is_suffix_of(
            #[trigger] strings@[i]@,
            originals[i]@,
        ) by {}
    }
    strings
}

} // verus!
