//! What counts as an image in the listing of a directory tree.

use crate::entries::Name;
use crate::suffix::{has_image_suffix, is_image_path};
use vstd::prelude::*;

verus! {

/// What the walk of a directory tree found at one place.
#[derive(Debug)]
pub struct Found {
    /// The path, as the walk came to it.
    pub path: String,
    /// How far below the root it lies: 0 for the root itself, 1 for what the
    /// root directory holds.
    pub depth: usize,
    /// Whether it is a regular file.
    pub is_file: bool,
    /// Its canonical path; `None` where the path could not be resolved.
    pub canonical: Option<String>,
}

/// The characters of each of the strings.
pub open spec fn names_view(names: Seq<String>) -> Seq<Name> {
    names.map_values(|name: String| name@)
}

/// Whether what was found is an image of the scan: a regular file below the
/// root, directly below it unless the scan is recursive, whose path has the
/// extension of an image and could be resolved.
pub open spec fn counts(found: Found, recursive: bool) -> bool {
    &&& found.is_file
    &&& if recursive {
        found.depth >= 1
    } else {
        found.depth == 1
    }
    &&& is_image_path(found.path@)
    &&& found.canonical is Some
}

/// The canonical paths of the images of a scan, in the order of the listing.
pub open spec fn present(listing: Seq<Found>, recursive: bool) -> Seq<Name> {
    listing.filter_map(
        |found: Found|
            if counts(found, recursive) {
                Some(found.canonical->0@)
            } else {
                None
            },
    )
}

/// What `filter_map` keeps of an item that it maps to something.
proof fn lemma_counted(listing: Seq<Found>, recursive: bool, i: int)
    requires
        0 <= i < listing.len(),
        counts(listing[i], recursive),
    ensures
        present(listing, recursive).contains(listing[i].canonical->0@),
    decreases listing.len(),
{
    let f = |found: Found|
        if counts(found, recursive) {
            Some(found.canonical->0@)
        } else {
            None
        };
    let front = listing.drop_last();
    if i == listing.len() - 1 {
        let kept = listing.filter_map(f);
        assert(kept[kept.len() - 1] == listing[i].canonical->0@);
    } else {
        lemma_counted(front, recursive, i);
        let wanted = listing[i].canonical->0@;
        assert(front[i] == listing[i]);
        let k = choose|k: int| 0 <= k < front.filter_map(f).len() && front.filter_map(f)[k] == wanted;
        assert(listing.filter_map(f)[k] == wanted);
    }
}

/// A path is among the images of a scan exactly if it is the canonical path
/// of something in the listing that counts: whatever has no image's
/// extension, or is no regular file, is never among them.
pub proof fn lemma_present(listing: Seq<Found>, recursive: bool, name: Name)
    ensures
        present(listing, recursive).contains(name) <==> exists|i: int|
            0 <= i < listing.len() && counts(#[trigger] listing[i], recursive)
                && listing[i].canonical->0@ == name,
{
    let f = |found: Found|
        if counts(found, recursive) {
            Some(found.canonical->0@)
        } else {
            None
        };
    if present(listing, recursive).contains(name) {
        listing.lemma_filter_map_contains(f, name);
        let found = choose|found: Found| #[trigger] listing.contains(found) && f(found) == Some(name);
        let i = choose|i: int| 0 <= i < listing.len() && listing[i] == found;
        assert(counts(listing[i], recursive) && listing[i].canonical->0@ == name);
    }
    if exists|i: int|
        0 <= i < listing.len() && counts(#[trigger] listing[i], recursive)
            && listing[i].canonical->0@ == name {
        let i = choose|i: int|
            0 <= i < listing.len() && counts(#[trigger] listing[i], recursive)
                && listing[i].canonical->0@ == name;
        lemma_counted(listing, recursive, i);
    }
}

impl Found {
    /// Whether this is an image of a scan, recursive or not.
    pub fn counts(&self, recursive: bool) -> (yes: bool)
        ensures
            yes == counts(*self, recursive),
    {
        self.is_file && (if recursive {
            self.depth >= 1
        } else {
            self.depth == 1
        }) && self.canonical.is_some() && has_image_suffix(self.path.as_str())
    }
}

/// The canonical paths of the images in the listing of a scan.
pub fn scan(listing: &Vec<Found>, recursive: bool) -> (paths: Vec<String>)
    ensures
        names_view(paths@) == present(listing@, recursive),
{
    let mut paths: Vec<String> = Vec::new();
    let mut i: usize = 0;
    assert(listing@.take(0) =~= Seq::<Found>::empty());
    while i < listing.len()
        invariant
            i <= listing.len(),
            names_view(paths@) == present(listing@.take(i as int), recursive),
        decreases listing.len() - i,
    {
        let found = &listing[i];
        proof {
            assert(listing@.take(i + 1).drop_last() =~= listing@.take(i as int));
            assert(listing@.take(i + 1).last() == listing@[i as int]);
        }
        if found.counts(recursive) {
            match &found.canonical {
                Some(canonical) => {
                    paths.push(canonical.clone());
                    assert(names_view(paths@) =~= present(listing@.take(i + 1), recursive));
                },
                None => {},
            }
        }
        i += 1;
    }
    assert(listing@.take(i as int) =~= listing@);
    paths
}

} // verus!
