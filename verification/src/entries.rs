//! The mathematical model of a store: a sequence of entries, each the
//! characters of a path and the bytes of its fingerprint.

use crate::fingerprint::HASH_BYTES;
use vstd::prelude::*;

verus! {

/// A path, as the characters of its text.
pub type Name = Seq<char>;

/// One entry of a store: a path and the bytes of its fingerprint.
pub type Entry = (Seq<char>, Seq<u8>);

/// No two entries have the same path.
pub open spec fn distinct(s: Seq<Entry>) -> bool {
    forall|i: int, j: int| 0 <= i < j < s.len() ==> s[i].0 != s[j].0
}

/// What holds of the entries of every store: no two have the same path, and
/// each fingerprint has `HASH_BYTES` bytes.
pub open spec fn well_formed(s: Seq<Entry>) -> bool {
    &&& distinct(s)
    &&& forall|i: int| 0 <= i < s.len() ==> (#[trigger] s[i]).1.len() == HASH_BYTES
}

/// Some entry has the path `name`.
pub open spec fn has_name(s: Seq<Entry>, name: Name) -> bool {
    exists|i: int| 0 <= i < s.len() && s[i].0 == name
}

/// The set of the paths that the entries have.
pub open spec fn name_set(s: Seq<Entry>) -> Set<Name> {
    Set::new(|name: Name| has_name(s, name))
}

/// Index of the first entry with the path `name`; the length of `s` if there
/// is none.
pub open spec fn position(s: Seq<Entry>, name: Name) -> int
    decreases s.len(),
{
    if s.len() == 0 {
        0
    } else {
        let p = position(s.drop_last(), name);
        if p < s.len() - 1 {
            p
        } else if s.last().0 == name {
            s.len() - 1
        } else {
            s.len() as int
        }
    }
}

/// The map from path to fingerprint that the entries make. Where two entries
/// have one path, the later one counts.
pub open spec fn to_map(s: Seq<Entry>) -> Map<Name, Seq<u8>>
    decreases s.len(),
{
    if s.len() == 0 {
        Map::empty()
    } else {
        to_map(s.drop_last()).insert(s.last().0, s.last().1)
    }
}

/// `s` with the fingerprint `hash` under the path `name`: in the place of the
/// first entry with that path, or at the end if there is none.
pub open spec fn put(s: Seq<Entry>, name: Name, hash: Seq<u8>) -> Seq<Entry> {
    let p = position(s, name);
    if p < s.len() {
        s.update(p, (name, hash))
    } else {
        s.push((name, hash))
    }
}

/// `s` after `put` of each of `items`, from the first to the last.
pub open spec fn put_all(s: Seq<Entry>, items: Seq<Entry>) -> Seq<Entry>
    decreases items.len(),
{
    if items.len() == 0 {
        s
    } else {
        put(put_all(s, items.drop_last()), items.last().0, items.last().1)
    }
}

/// `s` without the entries whose path is in `gone`, the others in their order.
pub open spec fn without(s: Seq<Entry>, gone: Set<Name>) -> Seq<Entry>
    decreases s.len(),
{
    if s.len() == 0 {
        s
    } else if gone.contains(s.last().0) {
        without(s.drop_last(), gone)
    } else {
        without(s.drop_last(), gone).push(s.last())
    }
}

/// The paths among `present` that `s` has no entry for, each once, in the
/// order in which `present` first names them.
pub open spec fn missing(s: Seq<Entry>, present: Seq<Name>) -> Seq<Name>
    decreases present.len(),
{
    if present.len() == 0 {
        present
    } else {
        let before = missing(s, present.drop_last());
        if has_name(s, present.last()) || before.contains(present.last()) {
            before
        } else {
            before.push(present.last())
        }
    }
}

/// The paths that `s` has an entry for and that are not among `present`.
pub open spec fn stale(s: Seq<Entry>, present: Seq<Name>) -> Set<Name> {
    Set::new(|name: Name| has_name(s, name) && !present.contains(name))
}

/// `s` brought in line with the paths `present`: the fingerprints `items`
/// put in, then the entries dropped that `s` had for paths no longer present.
pub open spec fn synced(s: Seq<Entry>, present: Seq<Name>, items: Seq<Entry>) -> Seq<Entry> {
    without(put_all(s, items), stale(s, present))
}

/// `position` finds the first entry with the path, and stays in range.
pub proof fn lemma_position(s: Seq<Entry>, name: Name)
    ensures
        0 <= position(s, name) <= s.len(),
        position(s, name) < s.len() ==> s[position(s, name)].0 == name,
        forall|i: int| 0 <= i < position(s, name) ==> s[i].0 != name,
        position(s, name) < s.len() <==> has_name(s, name),
    decreases s.len(),
{
    if s.len() != 0 {
        let front = s.drop_last();
        lemma_position(front, name);
        assert forall|i: int| 0 <= i < position(s, name) implies s[i].0 != name by {
            if i < front.len() {
                assert(front[i] == s[i]);
            }
        }
        if position(s, name) < s.len() {
            assert(s[position(s, name)].0 == name);
        }
    }
}

/// The first entry with a path is at the place where `position` says it is.
pub proof fn lemma_position_is(s: Seq<Entry>, name: Name, p: int)
    requires
        0 <= p <= s.len(),
        p < s.len() ==> s[p].0 == name,
        forall|i: int| 0 <= i < p ==> s[i].0 != name,
    ensures
        position(s, name) == p,
{
    lemma_position(s, name);
    let q = position(s, name);
    if q < p {
        assert(s[q].0 != name);
    }
}

/// The map of a sequence holds exactly the paths of its entries, and among
/// distinct entries each path has the fingerprint of its entry.
pub proof fn lemma_to_map(s: Seq<Entry>)
    ensures
        to_map(s).dom() =~= name_set(s),
        to_map(s).dom().finite(),
        distinct(s) ==> forall|i: int| 0 <= i < s.len() ==> to_map(s)[#[trigger] s[i].0] == s[i].1,
        distinct(s) ==> to_map(s).len() == s.len(),
    decreases s.len(),
{
    if s.len() == 0 {
        assert forall|name: Name| !has_name(s, name) by {}
        assert(to_map(s).dom() =~= Set::<Name>::empty());
    } else {
        let front = s.drop_last();
        lemma_to_map(front);
        assert forall|name: Name| has_name(s, name) <==> (has_name(front, name) || name
            == s.last().0) by {
            if has_name(s, name) {
                let i = choose|i: int| 0 <= i < s.len() && s[i].0 == name;
                if i < front.len() {
                    assert(front[i].0 == name);
                }
            }
            if has_name(front, name) {
                let i = choose|i: int| 0 <= i < front.len() && front[i].0 == name;
                assert(s[i].0 == name);
            }
            if name == s.last().0 {
                assert(s[s.len() - 1].0 == name);
            }
        }
        assert(to_map(s).dom() =~= name_set(s));
        if distinct(s) {
            assert(distinct(front)) by {
                assert forall|i: int, j: int| 0 <= i < j < front.len() implies front[i].0
                    != front[j].0 by {
                    assert(s[i].0 != s[j].0);
                }
            }
            assert forall|i: int| 0 <= i < s.len() implies to_map(s)[#[trigger] s[i].0]
                == s[i].1 by {
                if i < front.len() {
                    assert(front[i] == s[i]);
                    assert(s[i].0 != s[s.len() - 1].0);
                }
            }
            assert(!has_name(front, s.last().0)) by {
                if has_name(front, s.last().0) {
                    let i = choose|i: int| 0 <= i < front.len() && front[i].0 == s.last().0;
                    assert(s[i].0 != s[s.len() - 1].0);
                }
            }
            assert(!to_map(front).dom().contains(s.last().0));
        }
    }
}

/// Dropping the last of distinct entries leaves distinct entries, none of
/// which has the path of the one dropped.
pub proof fn lemma_distinct_front(s: Seq<Entry>)
    requires
        distinct(s),
        s.len() > 0,
    ensures
        distinct(s.drop_last()),
        !has_name(s.drop_last(), s.last().0),
{
    let front = s.drop_last();
    assert forall|i: int, j: int| 0 <= i < j < front.len() implies front[i].0 != front[j].0 by {
        assert(s[i].0 != s[j].0);
    }
    if has_name(front, s.last().0) {
        let i = choose|i: int| 0 <= i < front.len() && front[i].0 == s.last().0;
        assert(s[i].0 != s[s.len() - 1].0);
    }
}

/// The paths of `s` with one entry more are those of `s` and that entry's.
pub proof fn lemma_has_name_push(s: Seq<Entry>, e: Entry, name: Name)
    ensures
        has_name(s.push(e), name) <==> (has_name(s, name) || name == e.0),
{
    let t = s.push(e);
    if has_name(t, name) {
        let i = choose|i: int| 0 <= i < t.len() && t[i].0 == name;
        if i < s.len() {
            assert(s[i].0 == name);
        }
    }
    if has_name(s, name) {
        let i = choose|i: int| 0 <= i < s.len() && s[i].0 == name;
        assert(t[i].0 == name);
    }
    if name == e.0 {
        assert(t[s.len() as int].0 == name);
    }
}

/// `put` keeps entries distinct, adds the path to those that `s` has, and
/// changes the map of `s` as an insertion does.
pub proof fn lemma_put(s: Seq<Entry>, name: Name, hash: Seq<u8>)
    requires
        distinct(s),
    ensures
        distinct(put(s, name, hash)),
        to_map(put(s, name, hash)) == to_map(s).insert(name, hash),
        forall|other: Name|
            has_name(put(s, name, hash), other) <==> (has_name(s, other) || other == name),
    decreases s.len(),
{
    lemma_position(s, name);
    let p = position(s, name);
    let t = put(s, name, hash);
    assert forall|other: Name| has_name(t, other) <==> (has_name(s, other) || other
        == name) by {
        if p < s.len() {
            if has_name(t, other) {
                let i = choose|i: int| 0 <= i < t.len() && t[i].0 == other;
                assert(s[i].0 == other || other == name);
            }
            if has_name(s, other) {
                let i = choose|i: int| 0 <= i < s.len() && s[i].0 == other;
                assert(t[i].0 == other);
            }
            if other == name {
                assert(t[p].0 == name);
            }
        } else {
            lemma_has_name_push(s, (name, hash), other);
        }
    }
    if p < s.len() {
        assert forall|i: int, j: int| 0 <= i < j < t.len() implies t[i].0 != t[j].0 by {
            assert(s[i].0 != s[j].0);
            assert(t[i].0 == s[i].0);
            assert(t[j].0 == s[j].0);
        }
    } else {
        assert forall|i: int, j: int| 0 <= i < j < t.len() implies t[i].0 != t[j].0 by {
            if j < s.len() {
                assert(s[i].0 != s[j].0);
            } else {
                assert(s[i].0 != name);
            }
        }
    }
    if s.len() == 0 {
        assert(t =~= seq![(name, hash)]);
        assert(t.drop_last() =~= s);
    } else {
        let front = s.drop_last();
        lemma_distinct_front(s);
        lemma_position(front, name);
        if p < s.len() - 1 {
            lemma_put(front, name, hash);
            assert(t.drop_last() =~= put(front, name, hash));
            assert(t.last() == s.last());
            assert(s[p].0 != s[s.len() - 1].0);
            assert(to_map(t) =~= to_map(s).insert(name, hash));
        } else if p == s.len() - 1 {
            assert(t.drop_last() =~= front);
            assert(to_map(t) =~= to_map(s).insert(name, hash));
        } else {
            assert(t.drop_last() =~= s);
        }
    }
}

/// `put_all` keeps entries distinct and changes the map of `s` as the union
/// with the map of the items does, in which the items count.
pub proof fn lemma_put_all(s: Seq<Entry>, items: Seq<Entry>)
    requires
        distinct(s),
    ensures
        distinct(put_all(s, items)),
        to_map(put_all(s, items)) == to_map(s).union_prefer_right(to_map(items)),
        forall|name: Name|
            has_name(put_all(s, items), name) <==> (has_name(s, name) || has_name(items, name)),
    decreases items.len(),
{
    if items.len() == 0 {
        assert(to_map(s) =~= to_map(s).union_prefer_right(to_map(items)));
    } else {
        let front = items.drop_last();
        lemma_put_all(s, front);
        lemma_put(put_all(s, front), items.last().0, items.last().1);
        assert(to_map(put_all(s, items)) =~= to_map(s).union_prefer_right(to_map(items)));
        assert forall|name: Name|
            has_name(put_all(s, items), name) <==> (has_name(s, name) || has_name(
                items,
                name,
            )) by {
            lemma_has_name_push(front, items.last(), name);
            assert(front.push(items.last()) =~= items);
        }
    }
}

/// Putting distinct entries into an empty sequence gives those entries.
pub proof fn lemma_put_all_distinct(items: Seq<Entry>)
    requires
        distinct(items),
    ensures
        put_all(Seq::empty(), items) == items,
    decreases items.len(),
{
    if items.len() == 0 {
        assert(items =~= Seq::<Entry>::empty());
    } else {
        let front = items.drop_last();
        lemma_distinct_front(items);
        lemma_put_all_distinct(front);
        lemma_position(front, items.last().0);
        assert(front.push(items.last()) =~= items);
    }
}

/// `without` keeps entries distinct, keeps exactly the paths that are not in
/// `gone`, and changes the map of `s` as the removal of those keys does.
pub proof fn lemma_without(s: Seq<Entry>, gone: Set<Name>)
    ensures
        distinct(s) ==> distinct(without(s, gone)),
        to_map(without(s, gone)) == to_map(s).remove_keys(gone),
        forall|name: Name|
            has_name(without(s, gone), name) <==> (has_name(s, name) && !gone.contains(name)),
        without(s, gone).len() <= s.len(),
    decreases s.len(),
{
    if s.len() == 0 {
        assert(to_map(s) =~= to_map(s).remove_keys(gone));
    } else {
        let front = s.drop_last();
        let w = without(front, gone);
        lemma_without(front, gone);
        assert(front.push(s.last()) =~= s);
        assert forall|name: Name|
            has_name(without(s, gone), name) <==> (has_name(s, name) && !gone.contains(
                name,
            )) by {
            lemma_has_name_push(front, s.last(), name);
            lemma_has_name_push(w, s.last(), name);
        }
        if gone.contains(s.last().0) {
            assert(to_map(without(s, gone)) =~= to_map(s).remove_keys(gone));
        } else {
            assert(w.push(s.last()).drop_last() =~= w);
            assert(to_map(without(s, gone)) =~= to_map(s).remove_keys(gone));
        }
        if distinct(s) {
            lemma_distinct_front(s);
            if !gone.contains(s.last().0) {
                let t = w.push(s.last());
                assert forall|i: int, j: int| 0 <= i < j < t.len() implies t[i].0 != t[j].0 by {
                    if j == w.len() {
                        assert(has_name(w, w[i].0));
                    }
                }
            }
        }
    }
}

/// What is missing is named once, is among `present`, and has no entry; and
/// each of `present` that has no entry is missing.
pub proof fn lemma_missing(s: Seq<Entry>, present: Seq<Name>)
    ensures
        missing(s, present).no_duplicates(),
        forall|name: Name|
            missing(s, present).contains(name) <==> (present.contains(name) && !has_name(
                s,
                name,
            )),
    decreases present.len(),
{
    if present.len() != 0 {
        let front = present.drop_last();
        let before = missing(s, front);
        lemma_missing(s, front);
        assert forall|name: Name|
            missing(s, present).contains(name) <==> (present.contains(name) && !has_name(
                s,
                name,
            )) by {
            assert(front.push(present.last()) =~= present);
            if present.contains(name) {
                let i = choose|i: int| 0 <= i < present.len() && present[i] == name;
                if i < front.len() {
                    assert(front[i] == name);
                }
            }
            if front.contains(name) {
                let i = choose|i: int| 0 <= i < front.len() && front[i] == name;
                assert(present[i] == name);
            }
            assert(present[present.len() - 1] == present.last());
            let after = missing(s, present);
            if after.contains(name) {
                let i = choose|i: int| 0 <= i < after.len() && after[i] == name;
                if i < before.len() {
                    assert(before[i] == name);
                }
            }
            if before.contains(name) {
                let i = choose|i: int| 0 <= i < before.len() && before[i] == name;
                assert(after[i] == name);
            }
            if !(has_name(s, present.last()) || before.contains(present.last())) {
                assert(after[before.len() as int] == present.last());
            }
        }
    }
}

} // verus!
