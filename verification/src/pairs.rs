//! All pairs of positions in a list, each pair once, handed out one at a time.

use permutator::LargeCombinationIterator;
use vstd::prelude::*;

verus! {

/// The pairs `(i, j)` with the given `i` and `i < j < n`, by rising `j`.
pub open spec fn row(i: int, n: int) -> Seq<(int, int)> {
    Seq::new((n - 1 - i) as nat, |k: int| (i, i + 1 + k))
}

/// The pairs `(a, b)` with `i <= a < b < n`, by rising `a`, then rising `b`.
pub open spec fn pairs_from(i: int, n: int) -> Seq<(int, int)>
    decreases n - i,
{
    if i + 1 >= n {
        Seq::empty()
    } else {
        row(i, n) + pairs_from(i + 1, n)
    }
}

/// Every pair of positions in a list of `n` items, the smaller position
/// first: each pair once, by rising first position, then rising second.
pub open spec fn all_pairs(n: nat) -> Seq<(int, int)> {
    pairs_from(0, n as int)
}

/// `pairs_from` holds pairs in range, each of them once, and all of them.
pub proof fn lemma_pairs_from(i: int, n: int)
    requires
        0 <= i,
    ensures
        forall|k: int|
            0 <= k < pairs_from(i, n).len() ==> i <= (#[trigger] pairs_from(i, n)[k]).0
                < pairs_from(i, n)[k].1 < n,
        forall|k: int, l: int|
            0 <= k < l < pairs_from(i, n).len() ==> pairs_from(i, n)[k] != pairs_from(i, n)[l],
        forall|a: int, b: int| i <= a < b < n ==> pairs_from(i, n).contains((a, b)),
    decreases n - i,
{
    if i + 1 < n {
        let first = row(i, n);
        let rest = pairs_from(i + 1, n);
        let all = pairs_from(i, n);
        lemma_pairs_from(i + 1, n);
        assert forall|k: int| 0 <= k < all.len() implies i <= (#[trigger] all[k]).0 < all[k].1
            < n by {
            if k >= first.len() {
                assert(all[k] == rest[k - first.len()]);
            }
        }
        assert forall|k: int, l: int| 0 <= k < l < all.len() implies all[k] != all[l] by {
            if k >= first.len() {
                assert(all[k] == rest[k - first.len()]);
                assert(all[l] == rest[l - first.len()]);
            } else if l >= first.len() {
                assert(all[l] == rest[l - first.len()]);
                assert(all[k].0 == i);
            }
        }
        assert forall|a: int, b: int| i <= a < b < n implies all.contains((a, b)) by {
            if a == i {
                assert(first[b - i - 1] == (a, b));
                assert(all[b - i - 1] == (a, b));
            } else {
                assert(rest.contains((a, b)));
                let k = choose|k: int| 0 <= k < rest.len() && rest[k] == (a, b);
                assert(all[first.len() + k] == (a, b));
            }
        }
    }
}

/// `all_pairs` holds each pair of positions once, the smaller position first.
pub proof fn lemma_all_pairs(n: nat)
    ensures
        forall|k: int|
            0 <= k < all_pairs(n).len() ==> 0 <= (#[trigger] all_pairs(n)[k]).0 < all_pairs(
                n,
            )[k].1 < n,
        forall|k: int, l: int| 0 <= k < l < all_pairs(n).len() ==> all_pairs(n)[k] != all_pairs(n)[l],
        forall|a: int, b: int| 0 <= a < b < n ==> all_pairs(n).contains((a, b)),
{
    lemma_pairs_from(0, n as int);
}

#[verifier::external_type_specification]
#[verifier::external_body]
#[verifier::reject_recursive_types(T)]
pub struct ExLargeCombinationIterator<'a, T: 'a>(LargeCombinationIterator<'a, T>);

/// The pairs that an iterator over the 2-combinations of a list of numbers
/// has yet to hand out, in the order in which it hands them out.
pub uninterp spec fn pending(it: LargeCombinationIterator<'_, usize>) -> Seq<(usize, usize)>;

/// Calls `LargeCombinationIterator::new` with the given list and a
/// combination size of 2. Its `next` starts with the first two items and
/// advances the second position before the first, so the combinations come by
/// rising first position, then rising second. `new` panics on a list of fewer
/// than 2 items, and computes the number of combinations from `n * (n - 1)`.
#[verifier::external_body]
pub(crate) fn combinations<'a>(data: &'a Vec<usize>) -> (it: LargeCombinationIterator<'a, usize>)
    requires
        data@.len() >= 2,
        data@.len() * (data@.len() - 1) <= usize::MAX,
    ensures
        pending(it) == all_pairs(data@.len()).map_values(|p: (int, int)| (data@[p.0], data@[p.1])),
{
    LargeCombinationIterator::new(data, 2)
}

/// Calls `next` on the iterator: hands out the first pending pair, if there
/// is one, and leaves the others pending.
#[verifier::external_body]
pub(crate) fn next_pair<'a>(it: &mut LargeCombinationIterator<'a, usize>) -> (pair: Option<
    (usize, usize),
>)
    ensures
        pending(*old(it)).len() == 0 ==> pair is None && pending(*final(it)) == pending(*old(it)),
        pending(*old(it)).len() > 0 ==> pair == Some(pending(*old(it))[0]) && pending(*final(it))
            == pending(*old(it)).skip(1),
{
    it.next().map(|c| (*c[0], *c[1]))
}

} // verus!
