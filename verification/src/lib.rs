//! The core of a finder of visually similar images: fingerprints of images,
//! a store that maps each image's canonical path to its fingerprint, the
//! search for pairs of close fingerprints, and the store's file format.
//!
//! Nothing here touches the file system. A caller lists directories, resolves
//! paths, reads and fingerprints images and writes files; this crate decides
//! what is to be done with what the caller found.

pub mod duplicates;
pub mod entries;
pub mod equality;
pub mod error;
pub mod fingerprint;
pub mod hashdb;
pub mod msgpack;
pub mod pairs;
pub mod review;
pub mod scan;
pub mod suffix;
pub mod sync;
pub mod zlib;

use vstd::prelude::*;

verus! {

/// Name of the store's file inside the scanned directory, where no other
/// place is given for it.
pub const DB_FILE_NAME: &'static str = ".image_hash.db";

/// The threshold of similarity that is used where none is given.
pub const DEFAULT_THRESHOLD: u32 = 9;

/// What a run is asked to do.
#[derive(Debug)]
pub struct Args {
    /// Directory to scan for images.
    pub path: String,
    /// Location of the store's file; `DB_FILE_NAME` inside `path` if none.
    pub db: Option<String>,
    /// Scan the directory for images recursively.
    pub recursive: bool,
    /// Start from an empty store even where the store's file exists.
    pub rebuild: bool,
    /// Do not write the store to its file.
    pub no_dump: bool,
    /// Use the store as it was read; do not bring it in line with the
    /// directory.
    pub no_update: bool,
    /// Image similarity threshold.
    pub threshold: u32,
}

/// How a store is brought in line with a directory.
#[derive(Clone, Copy, Debug, PartialEq, Eq, Structural)]
pub enum Update {
    /// Not at all.
    Skip,
    /// With the images that lie directly in the directory.
    Flat,
    /// With the images that lie anywhere below the directory.
    Recursive,
}

/// The steps of a run, in the order in which they are taken.
#[derive(Clone, Copy, Debug, PartialEq, Eq, Structural)]
pub struct Plan {
    /// Read the store from its file, rather than start from an empty store.
    pub load: bool,
    /// How to bring the store in line with the directory.
    pub update: Update,
    /// Write the store to its file.
    pub dump: bool,
    /// Below which distance two images count as duplicates.
    pub threshold: u32,
}

/// Why a run cannot start.
#[derive(Debug)]
pub enum RunError {
    /// The path to scan, which is no directory.
    DirectoryNotFound(String),
}

/// The plan that a run follows when nothing goes wrong.
pub open spec fn planned(args: Args, db_is_file: bool) -> Plan {
    Plan {
        load: db_is_file && !args.rebuild,
        update: if args.no_update {
            Update::Skip
        } else if args.recursive {
            Update::Recursive
        } else {
            Update::Flat
        },
        dump: !args.no_dump,
        threshold: args.threshold,
    }
}

/// Decides what a run does, given whether the path to scan is a directory
/// and whether the store's file exists.
///
/// A run needs a directory to scan. It reads the store from its file if the
/// file exists and no rebuild is asked for, and else starts from an empty
/// store; it then updates the store unless told not to, writes it unless told
/// not to, and looks for duplicates.
pub fn run(args: &Args, path_is_dir: bool, db_is_file: bool) -> (res: Result<Plan, RunError>)
    ensures
        res is Ok <==> path_is_dir,
        res matches Ok(plan) ==> plan == planned(*args, db_is_file),
        res matches Err(RunError::DirectoryNotFound(path)) ==> path@ == args.path@,
{
    if !path_is_dir {
        return Err(RunError::DirectoryNotFound(args.path.clone()));
    }
    let update = if args.no_update {
        Update::Skip
    } else if args.recursive {
        Update::Recursive
    } else {
        Update::Flat
    };
    Ok(
        Plan {
            load: db_is_file && !args.rebuild,
            update,
            dump: !args.no_dump,
            threshold: args.threshold,
        },
    )
}

} // verus!
