//! Comparing the working copy of a tracked file with what the index recorded.
use vstd::prelude::*;

use crate::external::{unified_diff, unified_diff_text};
use crate::model::CacheEntry;

verus! {

/// The modification time differs from the recorded one.
pub const MODIFIED: i8 = 1;

/// The creation time differs from the recorded one.
pub const CREATED: i8 = 2;

/// The size differs from the recorded one.
pub const SIZE: i8 = 4;

/// Which of the recorded times and size differ from the file's current ones,
/// as a set of flags.
pub open spec fn metadata_changes(ce: CacheEntry, created: u128, modified: u128, size: u64) -> int {
    (if created != ce.created {
        CREATED as int
    } else {
        0
    }) + (if modified != ce.modified {
        MODIFIED as int
    } else {
        0
    }) + (if size != ce.size {
        SIZE as int
    } else {
        0
    })
}

/// Flags for the differences between an entry and the file's current
/// creation time, modification time (both in nanoseconds since the Unix
/// epoch) and size; 0 when nothing changed.
pub fn diff_metadata(ce: &CacheEntry, created: u128, modified: u128, size: u64) -> (flags: i8)
    ensures
        flags == metadata_changes(*ce, created, modified, size),
        (flags & MODIFIED != 0) == (modified != ce.modified),
        (flags & CREATED != 0) == (created != ce.created),
        (flags & SIZE != 0) == (size != ce.size),
        flags & !(MODIFIED | CREATED | SIZE) == 0,
        flags == 0 <==> (created == ce.created && modified == ce.modified && size == ce.size),
{
    let mut flags: i8 = 0;
    if created != ce.created {
        assert(0i8 | 2i8 == 2i8) by (bit_vector);
        flags |= CREATED;
    }
    if modified != ce.modified {
        assert(0i8 | 1i8 == 1i8 && 2i8 | 1i8 == 3i8) by (bit_vector);
        flags |= MODIFIED;
    }
    if size != ce.size {
        assert(0i8 | 4i8 == 4i8 && 1i8 | 4i8 == 5i8 && 2i8 | 4i8 == 6i8 && 3i8 | 4i8 == 7i8)
            by (bit_vector);
        flags |= SIZE;
    }
    proof {
        lemma_metadata_change_flags(*ce, created, modified, size);
        let f = flags;
        assert(0 <= f < 8 ==> ((f & 1i8 != 0) == (f % 2 == 1) && (f & 2i8 != 0) == ((f / 2) % 2
            == 1) && (f & 4i8 != 0) == ((f / 4) % 2 == 1) && f & !(1i8 | 2i8 | 4i8) == 0))
            by (bit_vector);
    }
    flags
}

/// The unified diff, line by line, from the stored text of a file to its
/// current text.
pub fn render_diff(old_text: &str, new_text: &str) -> (res: String)
    ensures
        res@ == unified_diff_text(old_text@, new_text@),
{
    unified_diff(old_text, new_text)
}


/// Each flag tells one difference: bit 0 (`MODIFIED`) is set exactly when the
/// modification time differs, bit 1 (`CREATED`) exactly when the creation time
/// differs, bit 2 (`SIZE`) exactly when the size differs, and no other bit is
/// set; so the flags are 0 exactly when nothing changed.
pub proof fn lemma_metadata_change_flags(ce: CacheEntry, created: u128, modified: u128, size: u64)
    ensures
        0 <= metadata_changes(ce, created, modified, size) < 8,
        (metadata_changes(ce, created, modified, size) % 2 == 1) == (modified != ce.modified),
        ((metadata_changes(ce, created, modified, size) / 2) % 2 == 1) == (created != ce.created),
        ((metadata_changes(ce, created, modified, size) / 4) % 2 == 1) == (size != ce.size),
        (metadata_changes(ce, created, modified, size) == 0) == (created == ce.created && modified
            == ce.modified && size == ce.size),
        MODIFIED == 1 && CREATED == 2 && SIZE == 4,
{
}

} // verus!
