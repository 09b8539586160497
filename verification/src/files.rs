//! The files of a module, kept by their URIs in the order in which each was
//! first seen, in an `IndexMap` of the `indexmap` crate.

use crate::location::{entry_views, EntryView, LocationEntry};
use indexmap::IndexMap;
use std::rc::Rc;
use vstd::prelude::*;

verus! {

/// `IndexMap` of the `indexmap` crate: a hash map that keeps its keys in the
/// order they were inserted in.
#[verifier::external_type_specification]
#[verifier::external_body]
#[verifier::reject_recursive_types(K)]
#[verifier::reject_recursive_types(V)]
#[verifier::reject_recursive_types(S)]
pub struct ExIndexMap<K, V, S>(IndexMap<K, V, S>);

/// The entries of one source file, ordered by position.
pub struct FileEntries {
    pub filename: Rc<String>,
    pub entries: Vec<LocationEntry>,
}

/// What a `FileEntries` stands for.
pub struct FileView {
    pub filename: Seq<char>,
    pub entries: Seq<EntryView>,
}

impl View for FileEntries {
    type V = FileView;

    open spec fn view(&self) -> FileView {
        FileView { filename: self.filename@, entries: entry_views(self.entries@) }
    }
}

/// The keys and values that a map of files holds, in the order of insertion.
pub uninterp spec fn files_of(map: IndexMap<String, FileEntries>) -> Seq<(Seq<char>, FileEntries)>;

/// The keys that a map of files holds, in the order of insertion.
pub open spec fn names_of(map: IndexMap<String, FileEntries>) -> Seq<Seq<char>> {
    files_of(map).map_values(|file: (Seq<char>, FileEntries)| file.0)
}

/// `IndexMap::new`: a map that holds nothing.
#[verifier::external_body]
pub(crate) fn new_map() -> (map: IndexMap<String, FileEntries>)
    ensures
        files_of(map) == Seq::<(Seq<char>, FileEntries)>::empty(),
{
    IndexMap::new()
}

/// `IndexMap::len`: the number of keys in the map.
#[verifier::external_body]
pub(crate) fn map_len(map: &IndexMap<String, FileEntries>) -> (len: usize)
    ensures
        len == files_of(*map).len(),
{
    map.len()
}

/// `IndexMap::get_index_of`: the place of `key` in the order of insertion, or
/// nothing where the map does not hold it.
#[verifier::external_body]
pub(crate) fn map_index_of(map: &IndexMap<String, FileEntries>, key: &str) -> (r: Option<usize>)
    ensures
        match r {
            Some(i) => i < files_of(*map).len() && files_of(*map)[i as int].0 == key@,
            None => forall|j: int|
                0 <= j < files_of(*map).len() ==> (#[trigger] files_of(*map)[j]).0 != key@,
        },
{
    map.get_index_of(key)
}

/// `IndexMap::insert`: a key that the map does not hold yet comes last in
/// its order, with its value; under a key that it holds, the value is
/// replaced and the key keeps its place.
#[verifier::external_body]
pub(crate) fn map_insert(map: &mut IndexMap<String, FileEntries>, key: String, value: FileEntries)
    ensures
        (forall|j: int|
            0 <= j < files_of(*old(map)).len() ==> (#[trigger] files_of(*old(map))[j]).0 != key@)
            ==> files_of(*final(map)) == files_of(*old(map)).push((key@, value)),
        forall|j: int|
            0 <= j < files_of(*old(map)).len() && (#[trigger] files_of(*old(map))[j]).0 == key@
                ==> files_of(*final(map)) == files_of(*old(map)).update(j, (key@, value)),
{
    map.insert(key, value);
}

/// `IndexMap::get_index`: the key and the value at the place `i` of the
/// order of insertion.
#[verifier::external_body]
pub(crate) fn map_get_index(map: &IndexMap<String, FileEntries>, i: usize) -> (r: (&String, &FileEntries))
    requires
        i < files_of(*map).len(),
    ensures
        r.0@ == files_of(*map)[i as int].0,
        *r.1 == files_of(*map)[i as int].1,
{
    map.get_index(i).unwrap()
}

/// `IndexMap::get_index_mut`: the value at the place `i` of the order of
/// insertion, to be changed in place. Its key stays, and so does the rest of
/// the map.
#[verifier::external_body]
pub(crate) fn map_get_index_mut(map: &mut IndexMap<String, FileEntries>, i: usize) -> (r: &mut FileEntries)
    requires
        i < files_of(*old(map)).len(),
    ensures
        *r == files_of(*old(map))[i as int].1,
        files_of(*final(map)) == files_of(*old(map)).update(
            i as int,
            (files_of(*old(map))[i as int].0, *final(r)),
        ),
{
    map.get_index_mut(i).unwrap().1
}

} // verus!
