//! How files that were found become index entries.

use vstd::prelude::*;

use crate::store::{upserted, with_stats, FileEntry, Store};

verus! {

/// What is known of a file that was found.
pub struct FoundFile {
    pub path: String,
    pub file_name: Option<String>,
    pub extension: Option<String>,
    pub parent: Option<String>,
    pub size: u64,
    /// Seconds since the epoch; `None` where it is not known or before it.
    pub modified: Option<i64>,
    pub depth: usize,
}

/// The text, or none.
pub open spec fn text_or_empty(s: Option<String>) -> Seq<char> {
    match s {
        Some(s) => s@,
        None => Seq::empty(),
    }
}

/// `e` is the entry of a file that was found and never opened.
pub open spec fn entry_of(f: FoundFile, e: FileEntry) -> bool {
    &&& e.path@ == f.path@
    &&& e.file_name@ == text_or_empty(f.file_name)
    &&& e.extension@ == text_or_empty(f.extension)
    &&& e.parent@ == text_or_empty(f.parent)
    &&& e.size == f.size
    &&& e.modified == match f.modified {
        Some(t) => t,
        None => 0,
    }
    &&& e.depth == f.depth
    &&& e.freq == 0
    &&& e.last_open == 0
}

fn or_empty(s: Option<String>) -> (r: String)
    ensures
        r@ == text_or_empty(s),
{
    match s {
        Some(s) => s,
        None => String::new(),
    }
}

/// The index entry of a file that was found.
pub fn build_entry(f: FoundFile) -> (e: FileEntry)
    ensures
        entry_of(f, e),
{
    FileEntry {
        path: f.path,
        file_name: or_empty(f.file_name),
        extension: or_empty(f.extension),
        parent: or_empty(f.parent),
        size: f.size,
        modified: match f.modified {
            Some(t) => t,
            None => 0,
        },
        depth: f.depth,
        freq: 0,
        last_open: 0,
    }
}

/// Indexes a file that was found; how often and when it was opened is kept.
pub fn index_file(store: &mut Store, f: FoundFile)
    requires
        old(store).wf(),
    ensures
        final(store).wf(),
        exists|e: FileEntry| #[trigger]
            entry_of(f, e) && final(store)@ == upserted(old(store)@, with_stats(old(store)@, e)),
{
    let e = build_entry(f);
    let ghost g = e;
    store.upsert_preserving_stats(e);
    assert(entry_of(f, g));
}

} // verus!
