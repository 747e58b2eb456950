//! An action that is cut short in the middle does no harm.
//!
//! The laws of locking and unlocking speak of a folder between two actions. Those
//! here speak of one on which a copy was cut short and left anything behind.

use vstd::prelude::*;

use crate::disk::{has_file, store_of, with_store, Disk, Tree};
use crate::job::Store;
use crate::laws::{interrupted, mode_store};
use crate::path::{stored_name, stored_names_differ};
use crate::restoring::{survives, unlockable};
use crate::streaming::{as_streams, openable};
use crate::vault::{stored_pairs, LockMode, Pair};

verus! {

/// The disk after the copy of a file into a store was cut short.
pub open spec fn torn_copy(store: Store, name: Seq<char>, junk: Seq<u8>, d: Disk) -> Disk {
    with_store(d, store, Some(store_of(d, store)->0.insert(name, junk)))
}

/// The disk after the temporary file was cut short.
pub open spec fn torn_temporary(junk: Seq<u8>, d: Disk) -> Disk {
    Disk { draft: Some(junk), ..d }
}

/// A copy into the store that is cut short while a folder is being locked leaves a
/// lock that can be finished: the file is still there, and is copied anew.
pub proof fn torn_copy_does_no_harm(
    mode: LockMode,
    original: Tree,
    pinned: Set<Seq<char>>,
    files: Seq<Seq<char>>,
    v: Seq<u8>,
    d: Disk,
    i: int,
    junk: Seq<u8>,
)
    requires
        mode != LockMode::Full,
        interrupted(mode, original, pinned, files, v, d),
        0 <= i < files.len(),
        has_file(d.tree, files[i]),
        store_of(d, mode_store(mode)) is Some,
    ensures
        interrupted(
            mode,
            original,
            pinned,
            files,
            v,
            torn_copy(mode_store(mode), stored_pairs(files)[i].1, junk, d),
        ),
{
    assert forall|j: int| 0 <= j < files.len() implies (j == i || stored_pairs(files)[i].1 != (
    #[trigger] stored_pairs(files)[j]).1) by {
        if stored_name(i as nat) == stored_name(j as nat) {
            stored_names_differ(i as nat, j as nat);
        }
    }
}

/// A temporary file that is cut short while a file is restored out of a store leaves
/// a folder that can be unlocked, with the same files to be had.
pub proof fn torn_temporary_does_no_harm(
    original: Tree,
    store: Store,
    pairs: Seq<Pair>,
    d: Disk,
    junk: Seq<u8>,
)
    requires
        unlockable(original, store, pairs, d),
    ensures
        unlockable(original, store, pairs, torn_temporary(junk, d)),
        forall|j: int|
            0 <= j < pairs.len() ==> (survives(store, #[trigger] pairs[j], torn_temporary(junk, d))
                <==> survives(store, pairs[j], d)),
{
    assert(store_of(torn_temporary(junk, d), store) == store_of(d, store));
}

/// A temporary file that is cut short while a file is restored out of a streamed
/// vault leaves a folder that can be unlocked.
pub proof fn torn_stream_does_no_harm(
    original: Tree,
    files: Seq<Seq<char>>,
    d: Disk,
    junk: Seq<u8>,
)
    requires
        openable(original, files, d),
    ensures
        openable(original, files, torn_temporary(junk, d)),
{
    let u = as_streams(original, files, d);
    torn_temporary_does_no_harm(original, Store::Streams, stored_pairs(files), u, junk);
    assert(as_streams(original, files, torn_temporary(junk, d)) == torn_temporary(junk, u));
}

} // verus!
