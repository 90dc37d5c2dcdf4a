//! What bringing a store in line with a directory achieves.

use crate::entries::{
    distinct, has_name, lemma_missing, lemma_put_all, lemma_without, missing, put_all, stale,
    synced, to_map, without, Entry, Name,
};
use vstd::prelude::*;

verus! {

/// Every path that is missing has been fingerprinted, and nothing else has.
pub open spec fn covers(items: Seq<Entry>, s: Seq<Entry>, present: Seq<Name>) -> bool {
    forall|name: Name| has_name(items, name) <==> missing(s, present).contains(name)
}

/// The store holds exactly the paths that are present.
pub open spec fn in_line(s: Seq<Entry>, present: Seq<Name>) -> bool {
    forall|name: Name| has_name(s, name) <==> present.contains(name)
}

/// Taking nothing away leaves the entries as they are.
proof fn lemma_without_none(s: Seq<Entry>, gone: Set<Name>)
    requires
        forall|i: int| 0 <= i < s.len() ==> !gone.contains(#[trigger] s[i].0),
    ensures
        without(s, gone) == s,
    decreases s.len(),
{
    if s.len() > 0 {
        let front = s.drop_last();
        assert forall|i: int| 0 <= i < front.len() implies !gone.contains(
            #[trigger] front[i].0,
        ) by {
            assert(front[i] == s[i]);
        }
        lemma_without_none(front, gone);
        assert(!gone.contains(s[s.len() - 1].0));
        assert(front.push(s.last()) =~= s);
    }
}

/// A list in which nothing is found is empty.
proof fn lemma_nothing_missing(s: Seq<Entry>, present: Seq<Name>)
    requires
        forall|name: Name| present.contains(name) ==> has_name(s, name),
    ensures
        missing(s, present).len() == 0,
{
    lemma_missing(s, present);
    let m = missing(s, present);
    if m.len() > 0 {
        let name = m[0];
        assert(m.contains(name));
        assert(missing(s, present).contains(name));
        assert(present.contains(name) && !has_name(s, name));
    }
}

/// A sync keeps the paths of a store distinct. It leaves the store with the
/// fingerprints taken and with those that it had, but for the paths that it
/// had and that are no longer present.
pub proof fn lemma_synced(s: Seq<Entry>, present: Seq<Name>, items: Seq<Entry>)
    requires
        distinct(s),
    ensures
        distinct(synced(s, present, items)),
        to_map(synced(s, present, items)) == to_map(s).union_prefer_right(
            to_map(items),
        ).remove_keys(stale(s, present)),
        forall|name: Name|
            has_name(synced(s, present, items), name) <==> ((has_name(s, name) || has_name(
                items,
                name,
            )) && !stale(s, present).contains(name)),
{
    lemma_put_all(s, items);
    lemma_without(put_all(s, items), stale(s, present));
}

/// After a sync in which every missing image was fingerprinted, and nothing
/// else, the store holds exactly the paths that are present, each once.
pub proof fn lemma_sync_complete(s: Seq<Entry>, present: Seq<Name>, items: Seq<Entry>)
    requires
        distinct(s),
        covers(items, s, present),
    ensures
        distinct(synced(s, present, items)),
        in_line(synced(s, present, items), present),
{
    lemma_synced(s, present, items);
    lemma_missing(s, present);
    let after = synced(s, present, items);
    assert forall|name: Name| has_name(after, name) <==> present.contains(name) by {
        let gone = stale(s, present).contains(name);
        assert(gone == (has_name(s, name) && !present.contains(name)));
        assert(has_name(items, name) == missing(s, present).contains(name));
        assert(missing(s, present).contains(name) == (present.contains(name) && !has_name(
            s,
            name,
        )));
        assert(has_name(after, name) == ((has_name(s, name) || has_name(items, name)) && !gone));
    }
}

/// A sync of a store that is in line with the directory asks for no
/// fingerprint and leaves the store as it is.
pub proof fn lemma_sync_unchanged(s: Seq<Entry>, present: Seq<Name>)
    requires
        in_line(s, present),
    ensures
        missing(s, present).len() == 0,
        synced(s, present, Seq::empty()) == s,
{
    lemma_nothing_missing(s, present);
    assert forall|i: int| 0 <= i < s.len() implies !stale(s, present).contains(
        #[trigger] s[i].0,
    ) by {
        assert(has_name(s, s[i].0));
    }
    lemma_without_none(s, stale(s, present));
}

/// Syncing twice against the same directory: the second sync asks for no
/// fingerprint and leaves the store as the first sync left it.
pub proof fn lemma_sync_twice(s: Seq<Entry>, present: Seq<Name>, items: Seq<Entry>)
    requires
        distinct(s),
        covers(items, s, present),
    ensures
        missing(synced(s, present, items), present).len() == 0,
        synced(synced(s, present, items), present, Seq::empty()) == synced(s, present, items),
{
    lemma_sync_complete(s, present, items);
    lemma_sync_unchanged(synced(s, present, items), present);
}

} // verus!
