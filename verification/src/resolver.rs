//! The resolver: the forward index by address, the index of each file by
//! position, and the queries against them.

use crate::error::ReaderError;
use crate::files::{
    files_of, map_get_index, map_get_index_mut, map_index_of, map_insert, map_len, names_of,
    new_map, FileEntries, FileView,
};
use crate::index::{
    finish_index, first_with_key, has_key, is_index_of, lower_bound, strictly_increasing,
};
use crate::lines::{extract, extracted};
use crate::location::{entry_views, lemma_pos_key_order, EntryView, IndexKey, LocationEntry, Pos};
use crate::path::is_source_uri;
use crate::wasm::{module_of, parse_module, payload_of, Error};
use indexmap::IndexMap;
use std::rc::Rc;
use vstd::prelude::*;

verus! {

/// One fact of the debugging information, as it is decoded: the code at
/// `address` in the module was made from the position `position` of the file
/// with the URI `destination`.
#[derive(Debug)]
pub struct Fact {
    pub address: u32,
    pub destination: String,
    pub position: Pos,
}

impl View for Fact {
    type V = EntryView;

    open spec fn view(&self) -> EntryView {
        EntryView { addr: self.address, dest: self.destination@, pos: self.position }
    }
}

/// What the facts `facts` stand for.
pub open spec fn fact_views(facts: Seq<Fact>) -> Seq<EntryView> {
    facts.map_values(|fact: Fact| fact@)
}

/// The test that an entry belongs to the file `name`.
pub open spec fn in_file(name: Seq<char>) -> spec_fn(EntryView) -> bool {
    |e: EntryView| e.dest == name
}

/// The files of `facts`, each once, in the order in which each was first
/// seen.
pub open spec fn first_seen(facts: Seq<EntryView>) -> Seq<Seq<char>>
    decreases facts.len(),
{
    if facts.len() == 0 {
        Seq::empty()
    } else {
        let before = first_seen(facts.drop_last());
        if before.contains(facts.last().dest) {
            before
        } else {
            before.push(facts.last().dest)
        }
    }
}

/// Every file of the facts is among those first seen.
pub proof fn lemma_first_seen_holds_all(facts: Seq<EntryView>, m: int)
    requires
        0 <= m < facts.len(),
    ensures
        first_seen(facts).contains(facts[m].dest),
    decreases facts.len(),
{
    let before = first_seen(facts.drop_last());
    if m == facts.len() - 1 {
        if !before.contains(facts.last().dest) {
            assert(before.push(facts.last().dest).last() == facts.last().dest);
        }
    } else {
        lemma_first_seen_holds_all(facts.drop_last(), m);
        assert(facts.drop_last()[m] == facts[m]);
        let at = choose|at: int| 0 <= at < before.len() && before[at] == facts[m].dest;
        assert(first_seen(facts)[at] == facts[m].dest);
    }
}

/// Among the files first seen, none occurs twice.
pub proof fn lemma_first_seen_distinct(facts: Seq<EntryView>)
    ensures
        first_seen(facts).no_duplicates(),
    decreases facts.len(),
{
    if facts.len() > 0 {
        lemma_first_seen_distinct(facts.drop_last());
    }
}

/// No fact belongs to a file that is not among those first seen.
pub proof fn lemma_unseen_file_has_no_facts(facts: Seq<EntryView>, name: Seq<char>)
    requires
        !first_seen(facts).contains(name),
    ensures
        facts.filter(in_file(name)) == Seq::<EntryView>::empty(),
{
    let test = in_file(name);
    assert(facts.all(|e: EntryView| !test(e))) by {
        assert forall|m: int| 0 <= m < facts.len() implies !test(#[trigger] facts[m]) by {
            lemma_first_seen_holds_all(facts, m);
        }
    }
    facts.lemma_all_neg_filter_empty(test);
    assert(facts.filter(test) =~= Seq::<EntryView>::empty());
}

/// The map holds the files of the facts `done`, each under its own name and
/// with the facts of that file, in the order they arrived in.
pub open spec fn bucketed(files: Seq<(Seq<char>, FileEntries)>, done: Seq<EntryView>) -> bool {
    &&& files.map_values(|file: (Seq<char>, FileEntries)| file.0) == first_seen(done)
    &&& forall|i: int| 0 <= i < files.len() ==> (#[trigger] files[i]).0 == files[i].1.filename@
    &&& forall|i: int|
        0 <= i < files.len() ==> entry_views((#[trigger] files[i]).1.entries@) == done.filter(
            in_file(files[i].0),
        )
}

/// Adding the fact `f` to the file it belongs to, which is new and empty
/// where no earlier fact belonged to it, keeps the map in step with the
/// facts.
pub proof fn lemma_bucket_step(
    before: Seq<(Seq<char>, FileEntries)>,
    ready: Seq<(Seq<char>, FileEntries)>,
    after: Seq<(Seq<char>, FileEntries)>,
    done: Seq<EntryView>,
    f: EntryView,
    at: int,
)
    requires
        bucketed(before, done),
        0 <= at < ready.len(),
        ready[at].0 == f.dest,
        ready == before || (at == before.len() && ready == before.push(ready[at])
            && ready[at].1.entries@.len() == 0 && ready[at].1.filename@ == f.dest && forall|j: int|
            0 <= j < before.len() ==> (#[trigger] before[j]).0 != f.dest),
        after.len() == ready.len(),
        forall|i: int| 0 <= i < ready.len() && i != at ==> #[trigger] after[i] == ready[i],
        after[at].0 == ready[at].0,
        after[at].1.filename == ready[at].1.filename,
        entry_views(after[at].1.entries@) == entry_views(ready[at].1.entries@).push(f),
    ensures
        bucketed(after, done.push(f)),
{
    let names = |file: (Seq<char>, FileEntries)| file.0;
    let grown = done.push(f);
    assert(grown.drop_last() =~= done);
    lemma_first_seen_distinct(done);
    assert(after.map_values(names) =~= ready.map_values(names));
    if ready == before {
        assert(before.map_values(names)[at] == f.dest);
        assert(first_seen(grown) == first_seen(done));
    } else {
        assert(!first_seen(done).contains(f.dest)) by {
            if first_seen(done).contains(f.dest) {
                let j = choose|j: int| 0 <= j < before.len() && first_seen(done)[j] == f.dest;
                assert(before.map_values(names)[j] == before[j].0);
            }
        }
        assert(ready.map_values(names) =~= before.map_values(names).push(f.dest));
        lemma_unseen_file_has_no_facts(done, f.dest);
        assert(entry_views(ready[at].1.entries@) =~= Seq::<EntryView>::empty());
    }
    assert forall|i: int| 0 <= i < after.len() implies entry_views(
        (#[trigger] after[i]).1.entries@,
    ) == grown.filter(in_file(after[i].0)) by {
        let test = in_file(after[i].0);
        done.lemma_filter_push(f, test);
        if i == at {
            assert(test(f));
            if ready == before {
                assert(entry_views(before[at].1.entries@) == done.filter(test));
            }
        } else {
            assert(after[i] == ready[i]);
            assert(ready.map_values(names)[i] == ready[i].0);
            assert(ready.map_values(names)[at] == f.dest);
            if ready == before {
                assert(ready[i].0 != f.dest);
            } else {
                assert(ready[i] == before[i]);
            }
            assert(!test(f));
        }
    }
    assert forall|i: int| 0 <= i < after.len() implies (#[trigger] after[i]).0
        == after[i].1.filename@ by {
        if i != at {
            assert(after[i] == ready[i]);
            if ready != before {
                assert(ready[i] == before[i]);
            }
        }
    }
}

/// The first fact with a key is one of the facts.
pub proof fn lemma_first_with_key_is_a_fact(
    facts: Seq<EntryView>,
    by: IndexKey,
    k: int,
    e: EntryView,
)
    requires
        first_with_key(facts, by, k) == Some(e),
    ensures
        facts.contains(e),
{
    let found = facts.filter(has_key(by, k));
    assert(found.contains(found[0]));
    facts.lemma_filter_contains_rev(has_key(by, k), e);
}

/// Every entry of `entries` has an address that is not below `offset`, and
/// belongs to a file whose URI is that of an absolute path.
pub open spec fn in_code(entries: Seq<EntryView>, offset: nat) -> bool {
    forall|i: int|
        0 <= i < entries.len() ==> (#[trigger] entries[i]).addr >= offset && is_source_uri(
            entries[i].dest,
        )
}

/// The answer to the question which entry of `index` stands for `addr`: the
/// entry with the greatest address that is not above `addr`, and nothing
/// where `addr` is below every address of the index.
pub open spec fn is_nearest_at_or_before(
    index: Seq<EntryView>,
    addr: u32,
    found: Option<EntryView>,
) -> bool {
    match found {
        Some(e) => {
            &&& index.contains(e)
            &&& e.addr <= addr
            &&& forall|i: int|
                0 <= i < index.len() && (#[trigger] index[i]).addr <= addr ==> index[i].addr
                    <= e.addr
        },
        None => forall|i: int| 0 <= i < index.len() ==> (#[trigger] index[i]).addr > addr,
    }
}

/// Whether the entry `e` is on the line `line`, in the column `column` or
/// after it.
pub open spec fn on_line_from(e: EntryView, line: u32, column: u32) -> bool {
    e.pos.line == line && e.pos.column >= column
}

/// The answer to the question which entry of a file stands for a position:
/// of the entries on the line `line` and in the column `column` or after it,
/// the one with the least column, and nothing where the line has no such
/// entry.
pub open spec fn is_first_on_line_from(
    entries: Seq<EntryView>,
    line: u32,
    column: u32,
    found: Option<EntryView>,
) -> bool {
    match found {
        Some(e) => {
            &&& entries.contains(e)
            &&& on_line_from(e, line, column)
            &&& forall|i: int|
                0 <= i < entries.len() && on_line_from(#[trigger] entries[i], line, column)
                    ==> e.pos.column <= entries[i].pos.column
        },
        None => forall|i: int|
            0 <= i < entries.len() ==> !on_line_from(#[trigger] entries[i], line, column),
    }
}

/// What an entry that a query found stands for.
pub open spec fn found_view(found: Option<LocationEntry>) -> Option<EntryView> {
    match found {
        Some(entry) => Some(entry@),
        None => None,
    }
}

/// The two indices over the facts of one module. It is built once and never
/// changed.
pub struct Resolver {
    locations: Vec<LocationEntry>,
    reverse_locations: IndexMap<String, FileEntries>,
}

impl Default for Resolver {
    /// The resolver of no facts: it has no entries and no files.
    fn default() -> (resolver: Resolver)
        ensures
            resolver.wf(),
            resolver.indexes(Seq::empty()),
    {
        let resolver = Resolver::from_facts(Vec::new());
        proof {
            assert(fact_views(Seq::<Fact>::empty()) =~= Seq::<EntryView>::empty());
        }
        resolver
    }
}

impl Resolver {
    /// Every resolver is well-formed.
    #[verifier::type_invariant]
    spec fn is_well_formed(self) -> bool {
        self.wf()
    }

    /// The forward index: the entries in the order of their addresses.
    pub closed spec fn locations(&self) -> Seq<EntryView> {
        entry_views(self.locations@)
    }

    /// The files, in the order in which each was first seen, each with its
    /// entries in the order of their positions.
    pub closed spec fn files(&self) -> Seq<FileView> {
        files_of(self.reverse_locations).map_values(|file: (Seq<char>, FileEntries)| file.1@)
    }

    /// Each file is kept under its own name.
    pub closed spec fn keyed(&self) -> bool {
        forall|i: int|
            0 <= i < files_of(self.reverse_locations).len() ==> (#[trigger] files_of(
                self.reverse_locations,
            )[i]).0 == files_of(self.reverse_locations)[i].1.filename@
    }

    /// What holds of every resolver, from the moment it is built: the
    /// addresses of the forward index rise strictly; no two files have one
    /// name; the positions of each file's entries rise strictly, and each of
    /// them belongs to that file; and each entry of the forward index belongs
    /// to one of the files.
    pub open spec fn wf(&self) -> bool {
        &&& self.keyed()
        &&& strictly_increasing(self.locations(), IndexKey::Address)
        &&& forall|i: int, j: int|
            0 <= i < j < self.files().len() ==> self.files()[i].filename != self.files()[j].filename
        &&& forall|i: int|
            0 <= i < self.files().len() ==> strictly_increasing(
                (#[trigger] self.files()[i]).entries,
                IndexKey::Position,
            )
        &&& forall|i: int, n: int|
            0 <= i < self.files().len() && 0 <= n < self.files()[i].entries.len() ==> (
            #[trigger] self.files()[i].entries[n]).dest == self.files()[i].filename
        &&& forall|n: int|
            0 <= n < self.locations().len() ==> self.knows_file((#[trigger] self.locations()[n]).dest)
    }

    /// One of the files has the URI `name`.
    pub open spec fn knows_file(&self, name: Seq<char>) -> bool {
        exists|i: int| 0 <= i < self.files().len() && (#[trigger] self.files()[i]).filename == name
    }

    /// The resolver holds the indices of `facts`: the forward index is their
    /// index by address; the files are theirs, in the order in which each was
    /// first seen; and each file's entries are the index by position of the
    /// facts of that file.
    pub open spec fn indexes(&self, facts: Seq<EntryView>) -> bool {
        &&& is_index_of(self.locations(), facts, IndexKey::Address)
        &&& self.files().map_values(|file: FileView| file.filename) == first_seen(facts)
        &&& forall|i: int|
            0 <= i < self.files().len() ==> is_index_of(
                (#[trigger] self.files()[i]).entries,
                facts.filter(in_file(self.files()[i].filename)),
                IndexKey::Position,
            )
    }

    /// Builds the two indices from the facts, which are in the order in
    /// which they were decoded.
    ///
    /// Each fact goes to the forward index and to the entries of its file; a
    /// file is made when its first fact arrives. Then each of the two is
    /// sorted, stably, and keeps of each address, or position, the first
    /// entry.
    pub fn from_facts(facts: Vec<Fact>) -> (resolver: Resolver)
        ensures
            resolver.wf(),
            resolver.indexes(fact_views(facts@)),
    {
        let ghost all = fact_views(facts@);
        let mut locations: Vec<LocationEntry> = Vec::new();
        let mut map = new_map();
        let mut n: usize = 0;
        proof {
            assert(all.take(0) =~= Seq::<EntryView>::empty());
            assert(names_of(map) =~= first_seen(all.take(0)));
        }
        while n < facts.len()
            invariant
                n <= facts.len(),
                all == fact_views(facts@),
                entry_views(locations@) == all.take(n as int),
                bucketed(files_of(map), all.take(n as int)),
            decreases facts.len() - n,
        {
            let fact = &facts[n];
            let ghost done = all.take(n as int);
            let ghost before = files_of(map);
            assert(fact@ == all[n as int]);
            let at = match map_index_of(&map, fact.destination.as_str()) {
                Some(at) => at,
                None => {
                    let filename = Rc::new(fact.destination.clone());
                    let file = FileEntries { filename, entries: Vec::new() };
                    map_insert(&mut map, fact.destination.clone(), file);
                    map_len(&map) - 1
                },
            };
            let ghost ready = files_of(map);
            let file = map_get_index_mut(&mut map, at);
            let entry = LocationEntry::new(fact.address, &file.filename, fact.position);
            let ghost listed = entry_views(locations@);
            let ghost filed = entry_views(file.entries@);
            locations.push(entry.clone());
            file.entries.push(entry);
            proof {
                assert(entry_views(file.entries@) =~= filed.push(fact@));
                assert(entry_views(locations@) =~= listed.push(fact@));
                assert(all.take(n + 1) =~= done.push(fact@));
            }
            proof {
                lemma_bucket_step(before, ready, files_of(map), done, fact@, at as int);
            }
            n = n + 1;
        }
        proof {
            assert(all.take(n as int) =~= all);
        }
        finish_index(&mut locations, IndexKey::Address);
        let count = map_len(&map);
        let mut i: usize = 0;
        while i < count
            invariant
                i <= count,
                count == files_of(map).len(),
                names_of(map) == first_seen(all),
                forall|j: int|
                    0 <= j < count ==> (#[trigger] files_of(map)[j]).0 == files_of(
                        map,
                    )[j].1.filename@,
                forall|j: int|
                    0 <= j < i ==> is_index_of(
                        entry_views((#[trigger] files_of(map)[j]).1.entries@),
                        all.filter(in_file(files_of(map)[j].0)),
                        IndexKey::Position,
                    ),
                forall|j: int|
                    i <= j < count ==> entry_views((#[trigger] files_of(map)[j]).1.entries@)
                        == all.filter(in_file(files_of(map)[j].0)),
            decreases count - i,
        {
            let ghost before = files_of(map);
            let file = map_get_index_mut(&mut map, i);
            finish_index(&mut file.entries, IndexKey::Position);
            proof {
                let after = files_of(map);
                assert(names_of(map) =~= before.map_values(
                    |file: (Seq<char>, FileEntries)| file.0,
                ));
                assert forall|j: int| 0 <= j < count implies (#[trigger] after[j]).0
                    == after[j].1.filename@ by {
                    assert(before[j].0 == before[j].1.filename@);
                }
                assert forall|j: int| 0 <= j < i + 1 implies is_index_of(
                    entry_views((#[trigger] after[j]).1.entries@),
                    all.filter(in_file(after[j].0)),
                    IndexKey::Position,
                ) by {
                    if j < i {
                        assert(after[j] == before[j]);
                    }
                }
                assert forall|j: int| i + 1 <= j < count implies entry_views(
                    (#[trigger] after[j]).1.entries@,
                ) == all.filter(in_file(after[j].0)) by {
                    assert(after[j] == before[j]);
                }
            }
            i = i + 1;
        }
        proof {
            let resolver = Resolver { locations, reverse_locations: map };
            let files = files_of(resolver.reverse_locations);
            let views = resolver.files();
            lemma_first_seen_distinct(all);
            assert(views.map_values(|file: FileView| file.filename) =~= first_seen(all)) by {
                assert forall|j: int| 0 <= j < views.len() implies views[j].filename == first_seen(
                    all,
                )[j] by {
                    assert(files[j].0 == files[j].1.filename@);
                    assert(names_of(resolver.reverse_locations)[j] == files[j].0);
                }
            }
            assert forall|j: int| 0 <= j < views.len() implies is_index_of(
                (#[trigger] views[j]).entries,
                all.filter(in_file(views[j].filename)),
                IndexKey::Position,
            ) by {
                assert(files[j].0 == files[j].1.filename@);
            }
            assert forall|a: int, b: int| 0 <= a < b < views.len() implies views[a].filename
                != views[b].filename by {
                assert(files[a].0 == files[a].1.filename@);
                assert(files[b].0 == files[b].1.filename@);
                assert(names_of(resolver.reverse_locations)[a] == files[a].0);
                assert(names_of(resolver.reverse_locations)[b] == files[b].0);
            }
            assert forall|n: int| 0 <= n < resolver.locations().len() implies resolver.knows_file(
                (#[trigger] resolver.locations()[n]).dest,
            ) by {
                let e = resolver.locations()[n];
                lemma_first_with_key_is_a_fact(
                    all,
                    IndexKey::Address,
                    e.key(IndexKey::Address),
                    e,
                );
                let m = choose|m: int| 0 <= m < all.len() && all[m] == e;
                lemma_first_seen_holds_all(all, m);
                let at = choose|at: int|
                    0 <= at < first_seen(all).len() && first_seen(all)[at] == e.dest;
                assert(views.map_values(|file: FileView| file.filename)[at] == views[at].filename);
            }
            assert forall|j: int, m: int|
                0 <= j < views.len() && 0 <= m < views[j].entries.len() implies (
            #[trigger] views[j].entries[m]).dest == views[j].filename by {
                let e = views[j].entries[m];
                let of_file = all.filter(in_file(views[j].filename));
                assert(is_index_of(views[j].entries, of_file, IndexKey::Position));
                lemma_first_with_key_is_a_fact(
                    of_file,
                    IndexKey::Position,
                    e.key(IndexKey::Position),
                    e,
                );
                all.lemma_filter_contains_rev(in_file(views[j].filename), e);
                let at = choose|at: int| 0 <= at < of_file.len() && of_file[at] == e;
                all.lemma_filter_pred(in_file(views[j].filename), at);
            }
        }
        Resolver { locations, reverse_locations: map }
    }

    /// Whether `r` is what building the resolver of the module `src` gives.
    ///
    /// The module's container decides first: the magic number, the version,
    /// a malformed section or a missing code section is the error. A code
    /// section that lies too far into the module for 32 bits is an error of
    /// the reader. Then the debugging information decides: an error of its
    /// decoding is an error of the reader; its facts are what the resolver
    /// holds the indices of. Those facts, and so the resolver's entries, have
    /// addresses at or after the start of the code section and belong to
    /// files with the URIs of absolute paths. A module without the section
    /// `.debug_info`, or with an empty one, has a resolver without entries
    /// and without files.
    pub open spec fn is_built_from(r: Result<Resolver, Error>, src: Seq<u8>) -> bool {
        match module_of(src) {
            Err(e) => r matches Err(f) && f == e,
            Ok((offset, sections)) => if offset > u32::MAX {
                r matches Err(Error::Reader(ReaderError::AddressOverflow))
            } else {
                match extracted(sections, offset as u32) {
                    Err(e) => r matches Err(Error::Reader(f)) && f == e,
                    Ok(facts) => match r {
                        Ok(resolver) => {
                            &&& resolver.wf()
                            &&& resolver.indexes(facts)
                            &&& in_code(facts, offset)
                            &&& in_code(resolver.locations(), offset)
                            &&& payload_of(sections, ".debug_info"@).len() == 0
                                ==> resolver.locations().len() == 0 && resolver.files().len() == 0
                        },
                        Err(_) => false,
                    },
                }
            },
        }
    }

    /// Reads the module `src` and builds its resolver.
    pub fn new(src: &[u8]) -> (r: Result<Resolver, Error>)
        ensures
            Resolver::is_built_from(r, src@),
    {
        let module = match parse_module(src) {
            Err(e) => {
                return Err(e);
            },
            Ok(module) => module,
        };
        if module.code_section_offset > u32::MAX as usize {
            return Err(Error::Reader(ReaderError::AddressOverflow));
        }
        let code_section_offset: u32 = module.code_section_offset as u32;
        let facts = match extract(&module.debug_sections, code_section_offset) {
            Err(e) => {
                return Err(Error::Reader(e));
            },
            Ok(facts) => facts,
        };
        let resolver = Resolver::from_facts(facts);
        proof {
            let all = fact_views(facts@);
            if all.len() == 0 {
                assert(resolver.files().len() == resolver.files().map_values(
                    |file: FileView| file.filename,
                ).len());
                if resolver.locations().len() > 0 {
                    let e = resolver.locations()[0];
                    all.lemma_filter_len(has_key(
                        IndexKey::Address,
                        e.key(IndexKey::Address),
                    ));
                    assert(first_with_key(
                        all,
                        IndexKey::Address,
                        e.key(IndexKey::Address),
                    ) is None);
                }
            }
            assert(in_code(all, code_section_offset as nat)) by {
                assert forall|m: int| 0 <= m < all.len() implies (#[trigger] all[m]).addr
                    >= code_section_offset && is_source_uri(all[m].dest) by {
                    assert(all[m] == facts@[m]@);
                }
            }
            assert forall|i: int| 0 <= i < resolver.locations().len() implies (
            #[trigger] resolver.locations()[i]).addr >= code_section_offset && is_source_uri(
                resolver.locations()[i].dest,
            ) by {
                let e = resolver.locations()[i];
                lemma_first_with_key_is_a_fact(
                    all,
                    IndexKey::Address,
                    e.key(IndexKey::Address),
                    e,
                );
                let m = choose|m: int| 0 <= m < all.len() && all[m] == e;
                assert(all[m] == facts@[m]@);
            }
            assert(resolver.indexes(all));
        }
        Ok(resolver)
    }

    /// Reads the module in the bytes `src` and builds its resolver: the same
    /// as `new`.
    pub fn from_slice(src: &[u8]) -> (r: Result<Resolver, Error>)
        ensures
            Resolver::is_built_from(r, src@),
    {
        Resolver::new(src)
    }

    /// The URIs of the files, in the order in which each was first seen.
    pub fn list_files(&self) -> (names: Vec<String>)
        ensures
            names@.len() == self.files().len(),
            forall|i: int| 0 <= i < names@.len() ==> (#[trigger] names@[i])@ == self.files()[i].filename,
    {
        proof {
            use_type_invariant(self);
        }
        let count = map_len(&self.reverse_locations);
        let mut names: Vec<String> = Vec::new();
        let mut i: usize = 0;
        while i < count
            invariant
                i <= count,
                count == files_of(self.reverse_locations).len(),
                self.keyed(),
                names@.len() == i,
                forall|j: int|
                    0 <= j < i ==> (#[trigger] names@[j])@ == files_of(
                        self.reverse_locations,
                    )[j].1.filename@,
            decreases count - i,
        {
            let (name, _) = map_get_index(&self.reverse_locations, i);
            names.push(name.clone());
            i = i + 1;
        }
        names
    }

    /// All entries of the forward index, in the order of their addresses.
    /// This hands out every entry at once: it is meant for exporting the
    /// mappings, not for single queries.
    pub fn list_mappings(&self) -> (entries: Vec<LocationEntry>)
        ensures
            entry_views(entries@) == self.locations(),
    {
        let mut entries: Vec<LocationEntry> = Vec::new();
        let mut i: usize = 0;
        while i < self.locations.len()
            invariant
                i <= self.locations.len(),
                entry_views(entries@) == entry_views(self.locations@).take(i as int),
            decreases self.locations.len() - i,
        {
            let ghost before = entry_views(entries@);
            entries.push(self.locations[i].clone());
            proof {
                assert(entry_views(entries@) =~= before.push(self.locations@[i as int]@));
                assert(entry_views(self.locations@).take(i + 1) =~= entry_views(
                    self.locations@,
                ).take(i as int).push(self.locations@[i as int]@));
            }
            i = i + 1;
        }
        proof {
            assert(entry_views(self.locations@).take(i as int) =~= entry_views(self.locations@));
        }
        entries
    }

    /// The entry that stands for the address `addr`: the nearest one at or
    /// before it.
    pub fn resolve(&self, addr: u32) -> (found: Option<LocationEntry>)
        ensures
            is_nearest_at_or_before(self.locations(), addr, found_view(found)),
    {
        proof {
            use_type_invariant(self);
        }
        let ghost index = entry_views(self.locations@);
        let at = lower_bound(&self.locations, IndexKey::Address, addr as u64 + 1);
        if at == 0 {
            proof {
                assert forall|i: int| 0 <= i < index.len() implies (#[trigger] index[i]).addr
                    > addr by {
                    assert(index[i] == self.locations@[i]@);
                }
            }
            None
        } else {
            let entry = self.locations[at - 1].clone();
            proof {
                assert(index[at - 1] == entry@);
                assert forall|i: int|
                    0 <= i < index.len() && (#[trigger] index[i]).addr <= addr implies index[i].addr
                    <= entry@.addr by {
                    assert(index[i] == self.locations@[i]@);
                    if i >= at {
                        assert(self.locations@[i]@.key(IndexKey::Address) >= addr + 1);
                    }
                }
            }
            Some(entry)
        }
    }

    /// The entry that stands for the position `line`, `column` of the file
    /// with the URI `file`: on that line, the first entry at or after that
    /// column. An entry of another line never stands for the position, and a
    /// file that the module does not know has no entries.
    pub fn resolve_reverse(&self, file: &str, line: u32, column: u32) -> (found: Option<
        LocationEntry,
    >)
        ensures
            (forall|i: int| 0 <= i < self.files().len() ==> (#[trigger] self.files()[i]).filename != file@)
                ==> found is None,
            forall|i: int|
                0 <= i < self.files().len() && (#[trigger] self.files()[i]).filename == file@
                    ==> is_first_on_line_from(
                    self.files()[i].entries,
                    line,
                    column,
                    found_view(found),
                ),
    {
        proof {
            use_type_invariant(self);
        }
        let ghost files = files_of(self.reverse_locations);
        let at = match map_index_of(&self.reverse_locations, file) {
            None => {
                proof {
                    assert forall|i: int| 0 <= i < self.files().len() implies (
                    #[trigger] self.files()[i]).filename != file@ by {
                        assert(files[i].0 == files[i].1.filename@);
                    }
                }
                return None;
            },
            Some(at) => at,
        };
        let (_, bucket) = map_get_index(&self.reverse_locations, at);
        let ghost entries = entry_views(bucket.entries@);
        proof {
            assert(files[at as int].0 == files[at as int].1.filename@);
            assert(self.files()[at as int].entries == entries);
            assert(strictly_increasing(entries, IndexKey::Position));
            assert forall|i: int|
                0 <= i < self.files().len() && (#[trigger] self.files()[i]).filename
                    == file@ implies i == at by {
                assert(files[i].0 == files[i].1.filename@);
            }
        }
        let k: u64 = (line as u64) * 0x1_0000_0000 + (column as u64);
        let first = lower_bound(&bucket.entries, IndexKey::Position, k);
        if first >= bucket.entries.len() {
            proof {
                assert forall|i: int| 0 <= i < entries.len() implies !on_line_from(
                    #[trigger] entries[i],
                    line,
                    column,
                ) by {
                    assert(entries[i] == bucket.entries@[i]@);
                }
            }
            return None;
        }
        let entry = &bucket.entries[first];
        proof {
            assert(entries[first as int] == entry@);
        }
        if entry.pos().line() != line {
            proof {
                assert forall|i: int| 0 <= i < entries.len() implies !on_line_from(
                    #[trigger] entries[i],
                    line,
                    column,
                ) by {
                    assert(entries[i] == bucket.entries@[i]@);
                    if i >= first {
                        assert(entries[first as int].key(IndexKey::Position) <= entries[i].key(
                            IndexKey::Position,
                        ));
                    }
                }
            }
            return None;
        }
        proof {
            assert forall|i: int|
                0 <= i < entries.len() && on_line_from(
                    #[trigger] entries[i],
                    line,
                    column,
                ) implies entry@.pos.column <= entries[i].pos.column by {
                assert(entries[i] == bucket.entries@[i]@);
                if i >= first {
                    assert(entries[first as int].key(IndexKey::Position) <= entries[i].key(
                        IndexKey::Position,
                    ));
                }
            }
        }
        Some(entry.clone())
    }
}

/// The addresses of the forward index rise strictly from each entry to the
/// next.
pub proof fn lemma_addresses_rise(resolver: Resolver, i: int, j: int)
    requires
        resolver.wf(),
        0 <= i < j < resolver.locations().len(),
    ensures
        resolver.locations()[i].addr < resolver.locations()[j].addr,
{
    let index = resolver.locations();
    assert(index[i].key(IndexKey::Address) < index[j].key(IndexKey::Address));
}

/// The positions of a file's entries rise strictly from each entry to the
/// next: each is on an earlier line than the next, or on the same line in an
/// earlier column.
pub proof fn lemma_positions_rise(resolver: Resolver, file: int, i: int, j: int)
    requires
        resolver.wf(),
        0 <= file < resolver.files().len(),
        0 <= i < j < resolver.files()[file].entries.len(),
    ensures
        resolver.files()[file].entries[i].pos.before(resolver.files()[file].entries[j].pos),
{
    let entries = resolver.files()[file].entries;
    assert(strictly_increasing(entries, IndexKey::Position));
    assert(entries[i].key(IndexKey::Position) < entries[j].key(IndexKey::Position));
    lemma_pos_key_order(entries[i].pos, entries[j].pos);
}

/// An address below every address of the forward index resolves to nothing.
pub proof fn lemma_resolve_below_all(resolver: Resolver, addr: u32, found: Option<EntryView>)
    requires
        resolver.wf(),
        is_nearest_at_or_before(resolver.locations(), addr, found),
        forall|i: int|
            0 <= i < resolver.locations().len() ==> addr < (#[trigger] resolver.locations()[i]).addr,
    ensures
        found is None,
{
    if let Some(e) = found {
        let i = choose|i: int| 0 <= i < resolver.locations().len() && resolver.locations()[i] == e;
        assert(addr < resolver.locations()[i].addr);
    }
}

/// The address of an entry of the forward index resolves to that entry.
pub proof fn lemma_resolve_exact(resolver: Resolver, i: int, found: Option<EntryView>)
    requires
        resolver.wf(),
        0 <= i < resolver.locations().len(),
        is_nearest_at_or_before(resolver.locations(), resolver.locations()[i].addr, found),
    ensures
        found == Some(resolver.locations()[i]),
{
    let index = resolver.locations();
    match found {
        Some(e) => {
            let j = choose|j: int| 0 <= j < index.len() && index[j] == e;
            assert(index[i].addr <= e.addr);
            if j < i {
                assert(index[j].key(IndexKey::Address) < index[i].key(IndexKey::Address));
            } else if j > i {
                assert(index[i].key(IndexKey::Address) < index[j].key(IndexKey::Address));
            }
        },
        None => {
            assert(index[i].addr > index[i].addr);
        },
    }
}

/// An address strictly between those of two neighbours in the forward index
/// resolves to the lower of the two.
pub proof fn lemma_resolve_between(resolver: Resolver, i: int, addr: u32, found: Option<EntryView>)
    requires
        resolver.wf(),
        0 <= i,
        i + 1 < resolver.locations().len(),
        resolver.locations()[i].addr < addr < resolver.locations()[i + 1].addr,
        is_nearest_at_or_before(resolver.locations(), addr, found),
    ensures
        found == Some(resolver.locations()[i]),
{
    let index = resolver.locations();
    match found {
        Some(e) => {
            let j = choose|j: int| 0 <= j < index.len() && index[j] == e;
            assert(index[i].addr <= e.addr);
            if j < i {
                assert(index[j].key(IndexKey::Address) < index[i].key(IndexKey::Address));
            } else if j > i {
                if j > i + 1 {
                    assert(index[i + 1].key(IndexKey::Address) < index[j].key(IndexKey::Address));
                }
            }
        },
        None => {
            assert(index[i].addr > addr);
        },
    }
}

/// A column after every entry of its line resolves to nothing, whatever
/// stands on later lines.
pub proof fn lemma_reverse_after_last_column(
    entries: Seq<EntryView>,
    line: u32,
    column: u32,
    found: Option<EntryView>,
)
    requires
        is_first_on_line_from(entries, line, column, found),
        forall|i: int|
            0 <= i < entries.len() && (#[trigger] entries[i]).pos.line == line
                ==> entries[i].pos.column < column,
    ensures
        found is None,
{
    if let Some(e) = found {
        let i = choose|i: int| 0 <= i < entries.len() && entries[i] == e;
        assert(entries[i].pos.column < column);
    }
}

/// A column between those of two neighbours on one line resolves to the
/// higher of the two.
pub proof fn lemma_reverse_between(
    entries: Seq<EntryView>,
    i: int,
    line: u32,
    column: u32,
    found: Option<EntryView>,
)
    requires
        strictly_increasing(entries, IndexKey::Position),
        0 <= i,
        i + 1 < entries.len(),
        entries[i].pos.line == line,
        entries[i + 1].pos.line == line,
        entries[i].pos.column < column <= entries[i + 1].pos.column,
        is_first_on_line_from(entries, line, column, found),
    ensures
        found == Some(entries[i + 1]),
{
    match found {
        Some(e) => {
            let j = choose|j: int| 0 <= j < entries.len() && entries[j] == e;
            assert(on_line_from(entries[i + 1], line, column));
            assert(e.pos.column <= entries[i + 1].pos.column);
            if j <= i {
                if j < i {
                    assert(entries[j].key(IndexKey::Position) < entries[i].key(IndexKey::Position));
                }
            } else if j > i + 1 {
                assert(entries[i + 1].key(IndexKey::Position) < entries[j].key(IndexKey::Position));
            }
        },
        None => {
            assert(on_line_from(entries[i + 1], line, column));
        },
    }
}

} // verus!
