//! Which pairs of entries are duplicates: those whose fingerprints are
//! closer to each other than a threshold.

use crate::entries::{distinct, Entry, Name};
use crate::fingerprint::hamming;
use crate::pairs::{all_pairs, lemma_all_pairs};
use vstd::prelude::*;

verus! {

/// The paths of the two entries at the positions of `pair`, if the distance
/// between their fingerprints is below `threshold`.
pub open spec fn close(s: Seq<Entry>, threshold: u32, pair: (int, int)) -> Option<(Name, Name)> {
    if hamming(s[pair.0].1, s[pair.1].1) < threshold {
        Some((s[pair.0].0, s[pair.1].0))
    } else {
        None
    }
}

/// The duplicates among the entries `s`: of every two entries whose
/// fingerprints are at a distance below `threshold`, the two paths, the
/// earlier entry's first.
pub open spec fn duplicates(s: Seq<Entry>, threshold: u32) -> Seq<(Name, Name)> {
    all_pairs(s.len()).filter_map(|pair: (int, int)| close(s, threshold, pair))
}

/// The characters of each pair of strings.
pub open spec fn pairs_view(pairs: Seq<(String, String)>) -> Seq<(Name, Name)> {
    pairs.map_values(|pair: (String, String)| (pair.0@, pair.1@))
}

/// What `filter_map` gives for a list with one item more.
proof fn lemma_close_push(s: Seq<Entry>, threshold: u32, pairs: Seq<(int, int)>)
    requires
        pairs.len() > 0,
    ensures
        pairs.filter_map(|pair: (int, int)| close(s, threshold, pair)) == match close(
            s,
            threshold,
            pairs.last(),
        ) {
            Some(found) => pairs.drop_last().filter_map(
                |pair: (int, int)| close(s, threshold, pair),
            ).push(found),
            None => pairs.drop_last().filter_map(|pair: (int, int)| close(s, threshold, pair)),
        },
{
    let f = |pair: (int, int)| close(s, threshold, pair);
    match close(s, threshold, pairs.last()) {
        Some(found) => {
            assert(pairs.filter_map(f) =~= pairs.drop_last().filter_map(f).push(found));
        },
        None => {},
    }
}

/// Two paths are reported as duplicates exactly if they are the paths of two
/// entries, the first before the second, whose fingerprints are at a
/// distance below the threshold.
pub proof fn lemma_duplicates_iff(s: Seq<Entry>, threshold: u32, first: Name, second: Name)
    ensures
        duplicates(s, threshold).contains((first, second)) <==> exists|a: int, b: int|
            0 <= a < b < s.len() && #[trigger] s[a].0 == first && #[trigger] s[b].0 == second
                && hamming(s[a].1, s[b].1) < threshold,
{
    let f = |pair: (int, int)| close(s, threshold, pair);
    let all = all_pairs(s.len());
    lemma_all_pairs(s.len());
    if duplicates(s, threshold).contains((first, second)) {
        all.lemma_filter_map_contains(f, (first, second));
        let pair = choose|pair: (int, int)| #[trigger]
            all.contains(pair) && f(pair) == Some((first, second));
        let k = choose|k: int| 0 <= k < all.len() && all[k] == pair;
        assert(0 <= all[k].0 < all[k].1 < s.len());
        assert(s[pair.0].0 == first && s[pair.1].0 == second);
    }
    if exists|a: int, b: int|
        0 <= a < b < s.len() && #[trigger] s[a].0 == first && #[trigger] s[b].0 == second
            && hamming(s[a].1, s[b].1) < threshold {
        let (a, b) = choose|a: int, b: int|
            0 <= a < b < s.len() && #[trigger] s[a].0 == first && #[trigger] s[b].0 == second
                && hamming(s[a].1, s[b].1) < threshold;
        assert(all.contains((a, b)));
        let k = choose|k: int| 0 <= k < all.len() && all[k] == (a, b);
        lemma_kept(s, threshold, all, k);
    }
}

/// A pair that is close is among what `filter_map` keeps.
proof fn lemma_kept(s: Seq<Entry>, threshold: u32, pairs: Seq<(int, int)>, k: int)
    requires
        0 <= k < pairs.len(),
        close(s, threshold, pairs[k]) is Some,
    ensures
        pairs.filter_map(|pair: (int, int)| close(s, threshold, pair)).contains(
            close(s, threshold, pairs[k])->0,
        ),
    decreases pairs.len(),
{
    let f = |pair: (int, int)| close(s, threshold, pair);
    lemma_close_push(s, threshold, pairs);
    let front = pairs.drop_last();
    if k == pairs.len() - 1 {
        let kept = front.filter_map(f).push(close(s, threshold, pairs[k])->0);
        assert(kept[kept.len() - 1] == close(s, threshold, pairs[k])->0);
    } else {
        lemma_kept(s, threshold, front, k);
        let wanted = close(s, threshold, pairs[k])->0;
        let i = choose|i: int| 0 <= i < front.filter_map(f).len() && front.filter_map(f)[i] == wanted;
        assert(pairs.filter_map(f)[i] == wanted);
    }
}

/// Among pairs of positions that hold each pair once, the smaller position
/// first, and entries with distinct paths: no two paths reported are the
/// same path, and no two paths are reported twice, in either order.
proof fn lemma_once(s: Seq<Entry>, threshold: u32, pairs: Seq<(int, int)>)
    requires
        distinct(s),
        forall|k: int| 0 <= k < pairs.len() ==> 0 <= (#[trigger] pairs[k]).0 < pairs[k].1 < s.len(),
        forall|k: int, l: int| 0 <= k < l < pairs.len() ==> pairs[k] != pairs[l],
    ensures
        ({
            let found = pairs.filter_map(|pair: (int, int)| close(s, threshold, pair));
            &&& forall|k: int| 0 <= k < found.len() ==> (#[trigger] found[k]).0 != found[k].1
            &&& forall|k: int, l: int|
                0 <= k < l < found.len() ==> found[k] != found[l] && found[k] != (
                    found[l].1,
                    found[l].0,
                )
        }),
    decreases pairs.len(),
{
    let f = |pair: (int, int)| close(s, threshold, pair);
    let found = pairs.filter_map(f);
    if pairs.len() > 0 {
        let front = pairs.drop_last();
        let before = front.filter_map(f);
        lemma_close_push(s, threshold, pairs);
        assert forall|k: int| 0 <= k < front.len() implies 0 <= (#[trigger] front[k]).0
            < front[k].1 < s.len() by {
            assert(front[k] == pairs[k]);
        }
        assert forall|k: int, l: int| 0 <= k < l < front.len() implies front[k] != front[l] by {
            assert(front[k] == pairs[k]);
            assert(front[l] == pairs[l]);
        }
        lemma_once(s, threshold, front);
        let last = pairs[pairs.len() - 1];
        assert(0 <= last.0 < last.1 < s.len());
        if close(s, threshold, last) is Some {
            let new = close(s, threshold, last)->0;
            assert(new.0 != new.1);
            assert forall|k: int| 0 <= k < before.len() implies before[k] != new && before[k]
                != (new.1, new.0) by {
                assert(before.contains(before[k]));
                front.lemma_filter_map_contains(f, before[k]);
                let pair = choose|pair: (int, int)| #[trigger]
                    front.contains(pair) && f(pair) == Some(before[k]);
                let i = choose|i: int| 0 <= i < front.len() && front[i] == pair;
                assert(front[i] == pairs[i]);
                assert(0 <= pairs[i].0 < pairs[i].1 < s.len());
                assert(pairs[i] != pairs[pairs.len() - 1]);
                if before[k] == new {
                    assert(s[pair.0].0 == s[last.0].0);
                    assert(s[pair.1].0 == s[last.1].0);
                    assert(pair.0 == last.0);
                    assert(pair.1 == last.1);
                }
                if before[k] == (new.1, new.0) {
                    assert(s[pair.0].0 == s[last.1].0);
                    assert(s[pair.1].0 == s[last.0].0);
                    assert(pair.0 == last.1);
                    assert(pair.1 == last.0);
                }
            }
            assert forall|k: int| 0 <= k < found.len() implies (#[trigger] found[k]).0
                != found[k].1 by {
                if k < before.len() {
                    assert(found[k] == before[k]);
                }
            }
            assert forall|k: int, l: int| 0 <= k < l < found.len() implies found[k] != found[l]
                && found[k] != (found[l].1, found[l].0) by {
                assert(found[k] == before[k]);
                if l < before.len() {
                    assert(found[l] == before[l]);
                }
            }
        }
    }
}

/// No pair of duplicates names one path twice, and no two paths are named
/// as duplicates twice, in whichever order.
pub proof fn lemma_duplicates_once(s: Seq<Entry>, threshold: u32)
    requires
        distinct(s),
    ensures
        forall|k: int|
            0 <= k < duplicates(s, threshold).len() ==> (#[trigger] duplicates(s, threshold)[k]).0
                != duplicates(s, threshold)[k].1,
        forall|k: int, l: int|
            0 <= k < l < duplicates(s, threshold).len() ==> duplicates(s, threshold)[k]
                != duplicates(s, threshold)[l] && duplicates(s, threshold)[k] != (
                duplicates(s, threshold)[l].1,
                duplicates(s, threshold)[l].0,
            ),
{
    lemma_all_pairs(s.len());
    lemma_once(s, threshold, all_pairs(s.len()));
}

/// With a threshold of 0 nothing is a duplicate, whatever the fingerprints.
pub proof fn lemma_threshold_zero(s: Seq<Entry>)
    ensures
        duplicates(s, 0).len() == 0,
{
    let f = |pair: (int, int)| close(s, 0, pair);
    let all = all_pairs(s.len());
    if duplicates(s, 0).len() > 0 {
        let found = duplicates(s, 0)[0];
        assert(duplicates(s, 0).contains(found));
        all.lemma_filter_map_contains(f, found);
    }
}

} // verus!
