//! The store of fingerprints: for each image, by its canonical path, the
//! fingerprint that was taken of it.

use crate::duplicates::{close, duplicates, pairs_view};
use crate::entries::{
    distinct, has_name, lemma_position, lemma_position_is, lemma_put_all, lemma_put_all_distinct,
    lemma_to_map, lemma_without, missing, position, put, put_all, stale, synced, to_map,
    well_formed, without, Entry, Name,
};
pub use crate::error::HashDBError;
use crate::error::Malformed;
pub use crate::fingerprint::ImageHash;
use crate::fingerprint::{base64_text, HASH_BYTES};
use crate::msgpack::{lemma_unpacked_packed, oversize, pack, packed, unpack, unpacked};
use crate::pairs::{all_pairs, combinations, lemma_all_pairs, next_pair, pending};
use crate::scan::{names_view, present, scan, Found};
pub use crate::suffix::has_image_suffix;
use crate::zlib::{deflate, deflated, inflate, inflated};
use vstd::prelude::*;
use vstd::string::StringExecFns;

verus! {

/// A database of image fingerprints: to the canonical path of each image, its
/// fingerprint. It holds at most one fingerprint for a path.
#[derive(Debug)]
pub struct HashDB {
    rows: Vec<(String, ImageHash)>,
}

/// The entries that a list of rows stands for.
pub open spec fn rows_view(rows: Seq<(String, ImageHash)>) -> Seq<Entry> {
    rows.map_values(|row: (String, ImageHash)| (row.0@, row.1@))
}

/// What came of fingerprinting one image: its canonical path and its
/// fingerprint, or what went wrong.
pub type Hashed = Result<(String, ImageHash), HashDBError>;

/// Index of the first failure among `hashed`; its length if there is none.
pub open spec fn failure(hashed: Seq<Hashed>) -> int
    decreases hashed.len(),
{
    if hashed.len() == 0 {
        0
    } else {
        let p = failure(hashed.drop_last());
        if p < hashed.len() - 1 {
            p
        } else if hashed.last() is Err {
            hashed.len() - 1
        } else {
            hashed.len() as int
        }
    }
}

/// The entries that the fingerprints taken make, in their order.
pub open spec fn fingerprints(hashed: Seq<Hashed>) -> Seq<Entry> {
    hashed.filter_map(
        |one: Hashed|
            match one {
                Ok(row) => Some((row.0@, row.1@)),
                Err(_) => None,
            },
    )
}

/// `failure` finds the first failure, and stays in range.
pub proof fn lemma_failure(hashed: Seq<Hashed>)
    ensures
        0 <= failure(hashed) <= hashed.len(),
        failure(hashed) < hashed.len() ==> hashed[failure(hashed)] is Err,
        forall|i: int| 0 <= i < failure(hashed) ==> hashed[i] is Ok,
    decreases hashed.len(),
{
    if hashed.len() != 0 {
        let front = hashed.drop_last();
        lemma_failure(front);
        assert forall|i: int| 0 <= i < failure(hashed) implies hashed[i] is Ok by {
            if i < front.len() {
                assert(front[i] == hashed[i]);
            }
        }
    }
}

/// The contents of the file of a store with the entries `s`: its encoding,
/// compressed. `None` where the store cannot be written.
pub open spec fn file_of(s: Seq<Entry>) -> Option<Seq<u8>> {
    if oversize(s) is None {
        deflated(packed(s))
    } else {
        None
    }
}

/// The entries of the store that an encoding is read as: where it holds a
/// path more than once, the last fingerprint written for the path, in the
/// place of the first.
pub open spec fn decoded(plain: Seq<u8>) -> Result<Seq<Entry>, Malformed> {
    match unpacked(plain) {
        Ok(s) => Ok(put_all(Seq::empty(), s)),
        Err(e) => Err(e),
    }
}

/// Writing a store and reading what was written gives the store back: the
/// same paths with the same fingerprints, in the same order.
pub proof fn lemma_round_trip(s: Seq<Entry>)
    requires
        well_formed(s),
        oversize(s) is None,
    ensures
        decoded(packed(s)) == Ok::<Seq<Entry>, Malformed>(s),
{
    lemma_unpacked_packed(s);
    lemma_put_all_distinct(s);
}

/// The store as text: for each entry a line with the fingerprint in Base64,
/// a tab, and the path.
pub open spec fn listed(s: Seq<Entry>) -> Seq<char>
    decreases s.len(),
{
    if s.len() == 0 {
        Seq::empty()
    } else {
        listed(s.drop_last()) + base64_text(s.last().1) + seq!['\t'] + s.last().0 + seq!['\n']
    }
}

/// Whether the pairs of `n` items can be counted: whether `n * (n - 1)` fits
/// in a `usize`.
pub open spec fn pairable(n: nat) -> bool {
    n < 2 || n * (n - 1) <= usize::MAX
}

impl View for HashDB {
    type V = Map<Name, Seq<u8>>;

    /// The store as a map from path to fingerprint.
    closed spec fn view(&self) -> Map<Name, Seq<u8>> {
        to_map(self.entries())
    }
}

/// Index of the first row with the path `name`; the number of rows if there
/// is none.
fn find(rows: &Vec<(String, ImageHash)>, name: &String) -> (at: usize)
    ensures
        at == position(rows_view(rows@), name@),
{
    let mut i: usize = 0;
    while i < rows.len()
        invariant
            i <= rows.len(),
            forall|k: int| 0 <= k < i ==> rows_view(rows@)[k].0 != name@,
        decreases rows.len() - i,
    {
        if rows[i].0 == *name {
            proof {
                crate::entries::lemma_position_is(rows_view(rows@), name@, i as int);
            }
            return i;
        }
        i += 1;
    }
    proof {
        crate::entries::lemma_position_is(rows_view(rows@), name@, i as int);
    }
    i
}

/// Puts `hash` under `name`: in the place of the row with that path, or at
/// the end.
fn put_row(rows: &mut Vec<(String, ImageHash)>, name: String, hash: ImageHash)
    ensures
        rows_view(final(rows)@) == put(rows_view(old(rows)@), name@, hash@),
{
    let at = find(rows, &name);
    if at < rows.len() {
        rows[at] = (name, hash);
        assert(rows_view(rows@) =~= put(rows_view(old(rows)@), name@, hash@));
    } else {
        rows.push((name, hash));
        assert(rows_view(rows@) =~= put(rows_view(old(rows)@), name@, hash@));
    }
}

/// Whether `name` is among `names`.
fn contains_name(names: &Vec<String>, name: &String) -> (found: bool)
    ensures
        found == names_view(names@).contains(name@),
{
    let mut i: usize = 0;
    while i < names.len()
        invariant
            i <= names.len(),
            forall|k: int| 0 <= k < i ==> names_view(names@)[k] != name@,
        decreases names.len() - i,
    {
        if names[i] == *name {
            assert(names_view(names@)[i as int] == name@);
            return true;
        }
        i += 1;
    }
    false
}

/// The paths of the rows, in their order.
fn names_of(rows: &Vec<(String, ImageHash)>) -> (names: Vec<String>)
    ensures
        names@.len() == rows@.len(),
        forall|k: int| 0 <= k < rows@.len() ==> names_view(names@)[k] == rows_view(rows@)[k].0,
{
    let mut names: Vec<String> = Vec::new();
    let mut i: usize = 0;
    while i < rows.len()
        invariant
            i <= rows.len(),
            names@.len() == i,
            forall|k: int| 0 <= k < i ==> names_view(names@)[k] == rows_view(rows@)[k].0,
        decreases rows.len() - i,
    {
        let ghost before = names@;
        let name = rows[i].0.clone();
        assert(name@ == rows_view(rows@)[i as int].0);
        names.push(name);
        assert forall|k: int| 0 <= k <= i implies names_view(names@)[k] == rows_view(
            rows@,
        )[k].0 by {
            if k < i {
                assert(names_view(names@)[k] == names_view(before)[k]);
            }
        }
        i += 1;
    }
    names
}

/// Puts each fingerprint taken under its path, from the first to the last.
fn put_rows(rows: &mut Vec<(String, ImageHash)>, hashed: &Vec<Hashed>)
    requires
        failure(hashed@) == hashed@.len(),
    ensures
        rows_view(final(rows)@) == put_all(rows_view(old(rows)@), fingerprints(hashed@)),
{
    let mut i: usize = 0;
    assert(hashed@.take(0) =~= Seq::<Hashed>::empty());
    proof {
        lemma_failure(hashed@);
    }
    while i < hashed.len()
        invariant
            i <= hashed.len(),
            forall|k: int| 0 <= k < hashed@.len() ==> hashed@[k] is Ok,
            rows_view(rows@) == put_all(
                rows_view(old(rows)@),
                fingerprints(hashed@.take(i as int)),
            ),
        decreases hashed.len() - i,
    {
        proof {
            assert(hashed@.take(i + 1).drop_last() =~= hashed@.take(i as int));
            assert(hashed@.take(i + 1).last() == hashed@[i as int]);
            let before = fingerprints(hashed@.take(i as int));
            let after = fingerprints(hashed@.take(i + 1));
            assert(after.drop_last() =~= before);
        }
        match &hashed[i] {
            Ok(row) => {
                put_row(rows, row.0.clone(), row.1);
            },
            Err(_) => {},
        }
        i += 1;
    }
    assert(hashed@.take(i as int) =~= hashed@);
}

/// Drops the rows whose path is among `known` and not among `present`.
fn drop_stale(rows: &mut Vec<(String, ImageHash)>, known: &Vec<String>, present: &Vec<String>)
    ensures
        rows_view(final(rows)@) == without(
            rows_view(old(rows)@),
            Set::new(
                |name: Name|
                    names_view(known@).contains(name) && !names_view(present@).contains(name),
            ),
        ),
{
    let ghost all = rows_view(rows@);
    let ghost gone = Set::new(
        |name: Name| names_view(known@).contains(name) && !names_view(present@).contains(name),
    );
    let ghost done: int = 0;
    let mut i: usize = 0;
    assert(all.take(0) =~= Seq::<Entry>::empty());
    assert(rows_view(rows@) =~= without(all.take(0), gone) + all.skip(0));
    while i < rows.len()
        invariant
            0 <= done <= all.len(),
            i == without(all.take(done), gone).len(),
            rows_view(rows@) == without(all.take(done), gone) + all.skip(done),
            gone == Set::new(
                |name: Name|
                    names_view(known@).contains(name) && !names_view(present@).contains(name),
            ),
        decreases all.len() - done,
    {
        proof {
            assert(done < all.len());
            assert(all.take(done + 1).drop_last() =~= all.take(done));
            assert(all.take(done + 1).last() == all[done]);
            assert(rows_view(rows@)[i as int] == all[done]);
        }
        let ghost kept = without(all.take(done), gone);
        let ghost before = rows@;
        assert(rows[i as int].0@ == all[done].0);
        if contains_name(known, &rows[i].0) && !contains_name(present, &rows[i].0) {
            assert(gone.contains(all[done].0));
            rows.remove(i);
            assert(rows@ == before.remove(i as int));
            assert(rows_view(rows@) =~= rows_view(before).remove(i as int));
            assert(rows_view(before).remove(i as int) =~= kept + all.skip(done + 1));
            assert(rows_view(rows@) =~= without(all.take(done + 1), gone) + all.skip(done + 1));
        } else {
            assert(!gone.contains(all[done].0));
            assert(rows_view(rows@) =~= without(all.take(done + 1), gone) + all.skip(done + 1));
            i += 1;
        }
        proof {
            done = done + 1;
        }
    }
    proof {
        lemma_without(all.take(done), gone);
        assert(done == all.len());
        assert(all.take(done) =~= all);
        assert(all.skip(done) =~= Seq::<Entry>::empty());
        assert(rows_view(rows@) =~= without(all, gone));
    }
}

/// The numbers from 0 up to `n`, without `n`.
fn count_up(n: usize) -> (numbers: Vec<usize>)
    ensures
        numbers@.len() == n,
        forall|k: int| 0 <= k < n ==> numbers@[k] == k,
{
    let mut numbers: Vec<usize> = Vec::new();
    let mut i: usize = 0;
    while i < n
        invariant
            i <= n,
            numbers@.len() == i,
            forall|k: int| 0 <= k < i ==> numbers@[k] == k,
        decreases n - i,
    {
        numbers.push(i);
        i += 1;
    }
    numbers
}

impl HashDB {
    #[verifier::type_invariant]
    spec fn inv(self) -> bool {
        distinct(rows_view(self.rows@))
    }

    /// The entries of the store, in the order in which it holds them.
    pub closed spec fn entries(&self) -> Seq<Entry> {
        rows_view(self.rows@)
    }

    /// The store's map is the map of its entries.
    pub broadcast proof fn lemma_view(&self)
        ensures
            #[trigger] self@ == to_map(self.entries()),
    {
    }

    /// Create a new hash database, with no entries.
    pub fn new() -> (db: Self)
        ensures
            db.entries() == Seq::<Entry>::empty(),
            db@ == Map::<Name, Seq<u8>>::empty(),
    {
        let db = HashDB { rows: Vec::new() };
        assert(db.entries() =~= Seq::<Entry>::empty());
        db
    }

    /// The number of images in the store. No two of its entries have the
    /// same path.
    pub fn len(&self) -> (n: usize)
        ensures
            n == self.entries().len(),
            n == self@.len(),
            well_formed(self.entries()),
    {
        proof {
            use_type_invariant(self);
            lemma_to_map(self.entries());
            assert forall|i: int| 0 <= i < self.entries().len() implies (
            #[trigger] self.entries()[i]).1.len() == HASH_BYTES by {
                self.rows@[i].1.lemma_len();
            }
        }
        self.rows.len()
    }

    /// The fingerprint held for the path `name`, if there is one.
    pub fn get(&self, name: &String) -> (hash: Option<ImageHash>)
        ensures
            hash is Some <==> self@.contains_key(name@),
            hash matches Some(h) ==> h@ == self@[name@],
    {
        proof {
            use_type_invariant(self);
            lemma_to_map(self.entries());
            lemma_position(self.entries(), name@);
        }
        let at = find(&self.rows, name);
        if at < self.rows.len() {
            assert(self.entries()[at as int].0 == name@);
            Some(self.rows[at].1)
        } else {
            None
        }
    }

    /// The store as text: a line for each entry, with the fingerprint in
    /// Base64, a tab, and the path.
    pub fn to_string(&self) -> (text: String)
        ensures
            text@ == listed(self.entries()),
    {
        let mut text = String::new();
        let mut i: usize = 0;
        assert(self.entries().take(0) =~= Seq::<Entry>::empty());
        while i < self.rows.len()
            invariant
                i <= self.rows@.len(),
                text@ == listed(self.entries().take(i as int)),
            decreases self.rows@.len() - i,
        {
            proof {
                let upto = self.entries().take(i + 1);
                assert(upto.drop_last() =~= self.entries().take(i as int));
                assert(upto.last() == self.entries()[i as int]);
                reveal_strlit("\t");
                reveal_strlit("\n");
                assert("\t"@ =~= seq!['\t']);
                assert("\n"@ =~= seq!['\n']);
            }
            let hash = self.rows[i].1.to_base64();
            text.append(hash.as_str());
            text.append("\t");
            text.append(self.rows[i].0.as_str());
            text.append("\n");
            i += 1;
        }
        assert(self.entries().take(i as int) =~= self.entries());
        text
    }

    /// Whether this store and `other` hold the same fingerprints for the same
    /// paths, in whatever order.
    pub fn same(&self, other: &HashDB) -> (same: bool)
        ensures
            same == (self@ == other@),
    {
        proof {
            use_type_invariant(self);
            use_type_invariant(other);
            lemma_to_map(self.entries());
            lemma_to_map(other.entries());
        }
        if self.rows.len() != other.rows.len() {
            return false;
        }
        let mut i: usize = 0;
        while i < self.rows.len()
            invariant
                i <= self.rows@.len(),
                forall|k: int|
                    0 <= k < i ==> other@.contains_key(#[trigger] self.entries()[k].0)
                        && other@[self.entries()[k].0] == self.entries()[k].1,
                forall|k: int|
                    0 <= k < self.entries().len() ==> self@[#[trigger] self.entries()[k].0]
                        == self.entries()[k].1,
                self@.dom() =~= crate::entries::name_set(self.entries()),
            decreases self.rows@.len() - i,
        {
            assert(self.entries()[i as int].0 == self.rows@[i as int].0@);
            assert(has_name(self.entries(), self.entries()[i as int].0));
            match other.get(&self.rows[i].0) {
                None => {
                    return false;
                },
                Some(hash) => {
                    if !hash.same(&self.rows[i].1) {
                        return false;
                    }
                },
            }
            i += 1;
        }
        proof {
            assert(self@.dom().subset_of(other@.dom())) by {
                assert forall|name: Name| self@.dom().contains(name) implies other@.dom().contains(
                    name,
                ) by {
                    let k = choose|k: int|
                        0 <= k < self.entries().len() && self.entries()[k].0 == name;
                    assert(other@.contains_key(self.entries()[k].0));
                }
            }
            vstd::set_lib::lemma_subset_equality(self@.dom(), other@.dom());
            assert forall|name: Name| self@.dom().contains(name) implies self@[name]
                == other@[name] by {
                let k = choose|k: int| 0 <= k < self.entries().len() && self.entries()[k].0 == name;
                assert(other@[self.entries()[k].0] == self.entries()[k].1);
            }
            assert(self@ =~= other@);
        }
        true
    }

    /// Search through all pairs of images in the store for those whose
    /// fingerprints are at a Hamming distance below `threshold`. Each pair is
    /// looked at once, and the pairs are made one at a time.
    ///
    /// The generator of the pairs counts them before it starts, so the store
    /// must be `pairable`.
    pub fn find_duplicates(&self, threshold: u32) -> (found: Vec<(String, String)>)
        requires
            pairable(self.entries().len()),
        ensures
            pairs_view(found@) == duplicates(self.entries(), threshold),
    {
        let n = self.rows.len();
        let mut found: Vec<(String, String)> = Vec::new();
        let ghost s = self.entries();
        let ghost all = all_pairs(n as nat);
        let ghost f = |pair: (int, int)| close(s, threshold, pair);
        if n < 2 {
            assert(all.len() == 0) by {
                reveal_with_fuel(crate::pairs::pairs_from, 1);
            }
            assert(pairs_view(found@) =~= all.filter_map(f));
            return found;
        }
        let numbers = count_up(n);
        let mut it = combinations(&numbers);
        let ghost done: int = 0;
        proof {
            lemma_all_pairs(n as nat);
            assert(all.take(0) =~= Seq::<(int, int)>::empty());
            assert(pairs_view(found@) =~= all.take(0).filter_map(f));
            assert(all.skip(0) =~= all);
        }
        loop
            invariant_except_break
                0 <= done <= all.len(),
                pending(it) == all.skip(done).map_values(
                    |p: (int, int)| (numbers@[p.0], numbers@[p.1]),
                ),
            invariant
                n == self.rows@.len(),
                s == self.entries(),
                all == all_pairs(n as nat),
                f == |pair: (int, int)| close(s, threshold, pair),
                numbers@.len() == n,
                forall|k: int| 0 <= k < n ==> numbers@[k] == k,
                forall|k: int| 0 <= k < all.len() ==> 0 <= (#[trigger] all[k]).0 < all[k].1 < n,
                pairs_view(found@) == all.take(done).filter_map(f),
            ensures
                done == all.len(),
            decreases all.len() - done,
        {
            let ghost left = pending(it);
            match next_pair(&mut it) {
                None => {
                    assert(left.len() == 0);
                    break ;
                },
                Some(pair) => {
                    let (i, j) = pair;
                    proof {
                        assert(left.len() > 0);
                        assert(done < all.len());
                        assert(pair == left[0]);
                        assert(all.skip(done)[0] == all[done]);
                        assert(i == all[done].0 && j == all[done].1);
                        assert(all.skip(done).skip(1) =~= all.skip(done + 1));
                        all.lemma_filter_map_take_succ(f, done);
                    }
                    if self.rows[i].1.dist(&self.rows[j].1) < threshold {
                        found.push((self.rows[i].0.clone(), self.rows[j].0.clone()));
                        assert(pairs_view(found@) =~= all.take(done + 1).filter_map(f));
                    } else {
                        assert(pairs_view(found@) =~= all.take(done + 1).filter_map(f));
                    }
                    proof {
                        done = done + 1;
                    }
                },
            }
        }
        assert(all.take(done) =~= all);
        found
    }

    /// The store in the MessagePack encoding, before compression.
    pub fn to_msgpack(&self) -> (res: Result<Vec<u8>, HashDBError>)
        ensures
            match oversize(self.entries()) {
                Some(o) => res matches Err(HashDBError::EncodeError(x)) && x == o,
                None => res matches Ok(bytes) && bytes@ == packed(self.entries()),
            },
    {
        match pack(&self.rows) {
            Ok(bytes) => Ok(bytes),
            Err(o) => Err(HashDBError::EncodeError(o)),
        }
    }

    /// Reads a store from its MessagePack encoding. Every byte must belong
    /// to the encoding; where a path is written more than once, its last
    /// fingerprint counts.
    pub fn from_msgpack(plain: &[u8]) -> (res: Result<Self, HashDBError>)
        ensures
            match decoded(plain@) {
                Ok(s) => res matches Ok(db) && db.entries() == s,
                Err(e) => res matches Err(HashDBError::DecodeError(x)) && x == e,
            },
    {
        let read = match unpack(plain) {
            Ok(read) => read,
            Err(e) => {
                return Err(HashDBError::DecodeError(e));
            },
        };
        let mut rows: Vec<(String, ImageHash)> = Vec::new();
        let mut i: usize = 0;
        assert(rows_view(rows@) =~= Seq::<Entry>::empty());
        assert(rows_view(read@).take(0) =~= Seq::<Entry>::empty());
        while i < read.len()
            invariant
                i <= read.len(),
                rows_view(rows@) == put_all(Seq::empty(), rows_view(read@).take(i as int)),
            decreases read.len() - i,
        {
            proof {
                let upto = rows_view(read@).take(i + 1);
                assert(upto.drop_last() =~= rows_view(read@).take(i as int));
                assert(upto.last() == rows_view(read@)[i as int]);
            }
            put_row(&mut rows, read[i].0.clone(), read[i].1);
            i += 1;
        }
        proof {
            assert(rows_view(read@).take(i as int) =~= rows_view(read@));
            lemma_put_all(Seq::empty(), rows_view(read@));
        }
        Ok(HashDB { rows })
    }

    /// The contents of the store's file: the MessagePack encoding of the
    /// store, compressed into a zlib stream.
    pub fn to_file(&self) -> (res: Result<Vec<u8>, HashDBError>)
        ensures
            match oversize(self.entries()) {
                Some(o) => res matches Err(HashDBError::EncodeError(x)) && x == o,
                None => match deflated(packed(self.entries())) {
                    Some(stream) => res matches Ok(bytes) && bytes@ == stream,
                    None => res matches Err(HashDBError::IOError(_)),
                },
            },
            res matches Ok(bytes) ==> file_of(self.entries()) == Some(bytes@),
    {
        let plain = self.to_msgpack()?;
        match deflate(&plain) {
            Ok(stream) => Ok(stream),
            Err(e) => Err(HashDBError::IOError(e)),
        }
    }

    /// Reads a store from the contents of its file. A store is read whole or
    /// not at all: a damaged stream or encoding is an error.
    ///
    /// What `to_file` gave for a store is read as that store.
    pub fn from_file(contents: &[u8]) -> (res: Result<Self, HashDBError>)
        ensures
            match inflated(contents@) {
                None => res matches Err(HashDBError::DecodeError(Malformed::Stream(_))),
                Some(plain) => match decoded(plain) {
                    Ok(s) => res matches Ok(db) && db.entries() == s,
                    Err(e) => res matches Err(HashDBError::DecodeError(x)) && x == e,
                },
            },
            forall|s: Seq<Entry>|
                well_formed(s) && #[trigger] file_of(s) == Some(contents@) ==> (res matches Ok(db)
                    && db.entries() == s),
    {
        let plain = match inflate(contents) {
            Ok(plain) => plain,
            Err(e) => {
                return Err(HashDBError::DecodeError(Malformed::Stream(e)));
            },
        };
        proof {
            assert forall|s: Seq<Entry>|
                well_formed(s) && #[trigger] file_of(s) == Some(
                    contents@,
                ) implies decoded(plain@) == Ok::<Seq<Entry>, Malformed>(s) by {
                assert(deflated(packed(s)) == Some(contents@));
                lemma_round_trip(s);
            }
        }
        HashDB::from_msgpack(plain.as_slice())
    }

    /// The canonical paths that a scan found and that the store has no
    /// fingerprint for: what is to be fingerprinted before the store can be
    /// brought in line with the scan. Each path is named once.
    pub fn missing(&self, listing: &Vec<Found>, recursive: bool) -> (paths: Vec<String>)
        ensures
            names_view(paths@) == missing(self.entries(), present(listing@, recursive)),
    {
        let found = scan(listing, recursive);
        let mut paths: Vec<String> = Vec::new();
        let mut i: usize = 0;
        assert(names_view(found@).take(0) =~= Seq::<Name>::empty());
        while i < found.len()
            invariant
                i <= found.len(),
                names_view(paths@) == missing(self.entries(), names_view(found@).take(i as int)),
            decreases found.len() - i,
        {
            let name = &found[i];
            proof {
                let upto = names_view(found@).take(i + 1);
                assert(upto.drop_last() =~= names_view(found@).take(i as int));
                assert(upto.last() == name@);
                lemma_position(self.entries(), name@);
            }
            if find(&self.rows, name) == self.rows.len() && !contains_name(&paths, name) {
                paths.push(name.clone());
                assert(names_view(paths@) =~= missing(
                    self.entries(),
                    names_view(found@).take(i + 1),
                ));
            }
            i += 1;
        }
        assert(names_view(found@).take(i as int) =~= names_view(found@));
        paths
    }

    /// Brings the store in line with a scan, given what came of
    /// fingerprinting the images that were missing.
    fn sync(&mut self, listing: &Vec<Found>, hashed: Vec<Hashed>, recursive: bool) -> (res: Result<
        (),
        HashDBError,
    >)
        ensures
            match res {
                Ok(_) => {
                    &&& failure(hashed@) == hashed@.len()
                    &&& final(self).entries() == synced(
                        old(self).entries(),
                        present(listing@, recursive),
                        fingerprints(hashed@),
                    )
                    &&& final(self)@ == old(self)@.union_prefer_right(
                        to_map(fingerprints(hashed@)),
                    ).remove_keys(stale(old(self).entries(), present(listing@, recursive)))
                },
                Err(e) => {
                    &&& failure(hashed@) < hashed@.len()
                    &&& hashed@[failure(hashed@)] == Err::<(String, ImageHash), HashDBError>(e)
                    &&& final(self).entries() == old(self).entries()
                },
            },
    {
        let ghost given = hashed@;
        let mut results = hashed;
        let mut i: usize = 0;
        while i < results.len()
            invariant
                i <= results.len(),
                results@ == given,
                hashed@ == given,
                forall|k: int| 0 <= k < i ==> given[k] is Ok,
            decreases results.len() - i,
        {
            if results[i].is_err() {
                proof {
                    lemma_failure(given);
                    let p = failure(given);
                    if p < i {
                        assert(given[p] is Ok);
                    }
                    if p > i {
                        assert(given[i as int] is Ok);
                    }
                }
                assert(failure(given) == i);
                let first = results.remove(i);
                assert(first == given[i as int]);
                if let Err(e) = first {
                    return Err(e);
                }
            }
            i += 1;
        }
        proof {
            use_type_invariant(&*self);
            lemma_failure(given);
            let p = failure(given);
            if p < given.len() {
                assert(given[p] is Ok);
            }
        }
        let found = scan(listing, recursive);
        let mut rows: Vec<(String, ImageHash)> = Vec::new();
        std::mem::swap(&mut rows, &mut self.rows);
        let ghost before = rows_view(rows@);
        let known = names_of(&rows);
        put_rows(&mut rows, &results);
        drop_stale(&mut rows, &known, &found);
        proof {
            lemma_put_all(before, fingerprints(given));
            let gone = Set::new(
                |name: Name|
                    names_view(known@).contains(name) && !names_view(found@).contains(name),
            );
            lemma_without(put_all(before, fingerprints(given)), gone);
            assert(gone =~= stale(before, names_view(found@))) by {
                assert forall|name: Name|
                    names_view(known@).contains(name) <==> has_name(before, name) by {
                    if names_view(known@).contains(name) {
                        let k = choose|k: int|
                            0 <= k < names_view(known@).len() && names_view(known@)[k] == name;
                        assert(before[k].0 == name);
                    }
                    if has_name(before, name) {
                        let k = choose|k: int| 0 <= k < before.len() && before[k].0 == name;
                        assert(names_view(known@)[k] == name);
                    }
                }
            }
        }
        self.rows = rows;
        proof {
            crate::sync::lemma_synced(before, names_view(found@), fingerprints(given));
        }
        Ok(())
    }

    /// Brings the store in line with the images that lie directly in a
    /// directory. `listing` is what was found in the directory, and `hashed`
    /// what came of fingerprinting each image that is `missing`.
    ///
    /// If fingerprinting failed for an image, the first failure is returned
    /// and the store stays as it was. Otherwise each fingerprint taken is put
    /// under its path, and the entries that the store had for paths that the
    /// listing no longer holds are dropped.
    pub fn read_dir(&mut self, listing: &Vec<Found>, hashed: Vec<Hashed>) -> (res: Result<
        (),
        HashDBError,
    >)
        ensures
            res is Ok <==> failure(hashed@) == hashed@.len(),
            res is Ok ==> final(self).entries() == synced(
                old(self).entries(),
                present(listing@, false),
                fingerprints(hashed@),
            ),
            res is Ok ==> final(self)@ == old(self)@.union_prefer_right(
                to_map(fingerprints(hashed@)),
            ).remove_keys(stale(old(self).entries(), present(listing@, false))),
            res matches Err(e) ==> hashed@[failure(hashed@)] == Err::<
                (String, ImageHash),
                HashDBError,
            >(e) && final(self).entries() == old(self).entries(),
    {
        self.sync(listing, hashed, false)
    }

    /// [`read_dir`][HashDB::read_dir], but for the images that lie anywhere
    /// below a directory: `listing` is what a walk of the whole tree found.
    pub fn read_dir_recursive(&mut self, listing: &Vec<Found>, hashed: Vec<Hashed>) -> (res:
        Result<(), HashDBError>)
        ensures
            res is Ok <==> failure(hashed@) == hashed@.len(),
            res is Ok ==> final(self).entries() == synced(
                old(self).entries(),
                present(listing@, true),
                fingerprints(hashed@),
            ),
            res is Ok ==> final(self)@ == old(self)@.union_prefer_right(
                to_map(fingerprints(hashed@)),
            ).remove_keys(stale(old(self).entries(), present(listing@, true))),
            res matches Err(e) ==> hashed@[failure(hashed@)] == Err::<
                (String, ImageHash),
                HashDBError,
            >(e) && final(self).entries() == old(self).entries(),
    {
        self.sync(listing, hashed, true)
    }
}

} // verus!
