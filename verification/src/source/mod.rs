//! Directory entries and file metadata, as every file source reports them.
pub mod docker;
pub mod local;

use vstd::prelude::*;
use crate::ordering::{is_permutation, lowercase_chars, lowercased, stable_sort_order, stably_sorted};
use crate::text::{seq_views, str_to_chars};

verus! {

/// The type of a directory entry.
#[derive(Debug, Clone, Copy, PartialEq, Eq, Structural)]
pub enum EntryType {
    File,
    Directory,
}

/// A single entry of a directory listing.
#[derive(Debug, Clone)]
pub struct DirEntry {
    pub name: String,
    pub entry_type: EntryType,
}

/// Metadata for a file or directory.
#[derive(Debug, Clone, Copy)]
pub struct FileMeta {
    /// Last modification time as a Unix timestamp (seconds).
    pub mtime: u64,
    /// Size in bytes.
    pub size: u64,
    /// Whether the path is a directory.
    pub is_dir: bool,
}

/// What a [`DirEntry`] holds.
pub struct DirEntryView {
    pub name: Seq<char>,
    pub entry_type: EntryType,
}

impl View for DirEntry {
    type V = DirEntryView;

    open spec fn view(&self) -> DirEntryView {
        DirEntryView { name: self.name@, entry_type: self.entry_type }
    }
}

/// The views of a sequence of entries.
pub open spec fn entry_views(v: Seq<DirEntry>) -> Seq<DirEntryView> {
    v.map_values(|e: DirEntry| e@)
}

/// The case-insensitive sort keys of entries: their lowercase names.
pub open spec fn entry_keys(v: Seq<DirEntryView>) -> Seq<Seq<char>> {
    v.map_values(|e: DirEntryView| lowercased(e.name))
}

/// `output` is `input` sorted stably by lowercase name (`sort_by_key` with
/// `name.to_lowercase()`).
pub open spec fn sorted_by_lower_name(input: Seq<DirEntryView>, output: Seq<DirEntryView>) -> bool {
    exists|order: Seq<usize>|
        {
            &&& is_permutation(order, input.len())
            &&& stably_sorted(entry_keys(input), order)
            &&& output == order.map_values(|i: usize| input[i as int])
        }
}

/// Sorts entries stably by their lowercase names.
pub fn sort_entries_by_lower_name(entries: &Vec<DirEntry>) -> (r: Vec<DirEntry>)
    ensures
        sorted_by_lower_name(entry_views(entries@), entry_views(r@)),
{
    let ghost input = entry_views(entries@);
    let mut keys: Vec<Vec<char>> = Vec::new();
    let mut i: usize = 0;
    while i < entries.len()
        invariant
            input == entry_views(entries@),
            i <= entries.len(),
            keys.len() == i,
            forall|k: int| 0 <= k < i ==> #[trigger] keys@[k]@ == lowercased(entries@[k].name@),
        decreases entries.len() - i,
    {
        let name = str_to_chars(entries[i].name.as_str());
        let key = lowercase_chars(&name);
        keys.push(key);
        i = i + 1;
    }
    assert(seq_views(keys@) =~= entry_keys(input));
    let order = stable_sort_order(&keys);
    let mut r: Vec<DirEntry> = Vec::new();
    let mut j: usize = 0;
    while j < order.len()
        invariant
            input == entry_views(entries@),
            is_permutation(order@, entries.len() as nat),
            j <= order.len(),
            r.len() == j,
            forall|k: int| 0 <= k < j ==> #[trigger] r@[k]@ == input[order@[k] as int],
        decreases order.len() - j,
    {
        let e = &entries[order[j]];
        let copy = DirEntry { name: e.name.clone(), entry_type: e.entry_type };
        r.push(copy);
        j = j + 1;
    }
    assert(entry_views(r@) =~= order@.map_values(|i: usize| input[i as int]));
    r
}

/// The entries whose names do not start with `.`, in order.
pub open spec fn visible(es: Seq<DirEntryView>) -> Seq<DirEntryView>
    decreases es.len(),
{
    if es.len() == 0 {
        seq![]
    } else {
        let r = visible(es.drop_last());
        if es.last().name.len() > 0 && es.last().name[0] == '.' {
            r
        } else {
            r.push(es.last())
        }
    }
}

/// A directory listing as sources show it: hidden entries (names starting
/// with `.`) left out, the rest sorted stably by lowercase name.
pub fn listing_entries(entries: &Vec<DirEntry>) -> (r: Vec<DirEntry>)
    ensures
        sorted_by_lower_name(visible(entry_views(entries@)), entry_views(r@)),
{
    let ghost es = entry_views(entries@);
    let mut shown: Vec<DirEntry> = Vec::new();
    let mut k: usize = 0;
    assert(es.take(0) =~= Seq::<DirEntryView>::empty());
    while k < entries.len()
        invariant
            es == entry_views(entries@),
            k <= entries.len(),
            entry_views(shown@) == visible(es.take(k as int)),
        decreases entries.len() - k,
    {
        assert(es.take(k + 1).drop_last() =~= es.take(k as int));
        assert(es.take(k + 1).last() == entries@[k as int]@);
        let e = &entries[k];
        let name = str_to_chars(e.name.as_str());
        if !(name.len() > 0 && name[0] == '.') {
            let ghost before = entry_views(shown@);
            let copy = DirEntry { name: e.name.clone(), entry_type: e.entry_type };
            shown.push(copy);
            assert(entry_views(shown@) =~= before.push(copy@));
        }
        k = k + 1;
    }
    assert(es.take(entries.len() as int) =~= es);
    sort_entries_by_lower_name(&shown)
}

} // verus!
